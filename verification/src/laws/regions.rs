//! Where banks are, and how they are found.
use vstd::prelude::*;

use crate::bank::Bank;
use crate::laws::{claims, law_apart_banks_share_no_bit};
use crate::state::{is_first_named, Context, State};
use std::rc::Rc;

verus! {

/// Whether the bank has a place in the output, but takes no bit of it.
pub open spec fn is_empty_region(bank: Bank) -> bool {
    bank.output_offset is Some && forall|position: int| !#[trigger] claims(bank, position)
}

/// Banks that take bits of the output overlap just when there is a bit that both take.
pub proof fn law_banks_overlap_for_a_shared_bit_only(a: Bank, b: Bank)
    requires
        !is_empty_region(a),
        !is_empty_region(b),
    ensures
        a.overlaps(b) <==> exists|position: int| #[trigger]
            claims(a, position) && claims(b, position),
{
    if a.overlaps(b) {
        let s = a.output_offset->Some_0 as int;
        let t = b.output_offset->Some_0 as int;
        let p = if s < t {
            t
        } else {
            s
        };
        let x = choose|position: int| #[trigger] claims(a, position);
        let y = choose|position: int| #[trigger] claims(b, position);
        assert(claims(a, x) && claims(b, y));
        assert(claims(a, p) && claims(b, p));
    }
    if exists|position: int| #[trigger] claims(a, position) && claims(b, position) {
        let p = choose|position: int| #[trigger] claims(a, position) && claims(b, position);
        assert(claims(a, p) && claims(b, p));
    }
}

/// A bank that takes no bits overlaps one that does just when it lies between two bits
/// of it.
pub proof fn law_empty_bank_overlaps_from_inside(a: Bank, b: Bank)
    requires
        is_empty_region(a),
        !is_empty_region(b),
    ensures
        ({
            let start = a.output_offset->Some_0 as int;
            &&& a.overlaps(b) <==> claims(b, start - 1) && claims(b, start)
            &&& b.overlaps(a) <==> claims(b, start - 1) && claims(b, start)
        }),
{
    let start = a.output_offset->Some_0 as int;
    assert(!claims(a, start));
    let words = a.addr_size->Some_0;
    assert(words * a.wordsize >= 0) by (nonlinear_arith);
}

/// Two banks that take no bits do not overlap, and neither does a bank that is not in the
/// output.
pub proof fn law_nothing_overlaps_nothing(a: Bank, b: Bank)
    ensures
        is_empty_region(a) && is_empty_region(b) ==> !a.overlaps(b),
        a.output_offset is None || b.output_offset is None ==> !a.overlaps(b),
{
    if is_empty_region(a) && is_empty_region(b) {
        let s = a.output_offset->Some_0 as int;
        let t = b.output_offset->Some_0 as int;
        assert(!claims(a, s) && !claims(b, t));
        assert(a.addr_size->Some_0 * a.wordsize >= 0) by (nonlinear_arith);
        assert(b.addr_size->Some_0 * b.wordsize >= 0) by (nonlinear_arith);
    }
}

/// A bank is refused for one of two reasons: something is in the default bank already, or
/// it overlaps a bank besides the default one. The message on the latter names the first
/// such bank. The first bank is never refused.
pub proof fn law_bank_is_refused_for_cause(state: State, bank: Bank)
    ensures
        state.banks@.len() == 0 ==> state.bank_refusal(bank) is None,
        state.banks@.len() > 0 && state.bankdata@[0].cur_bit_offset != 0 ==> state.bank_refusal(bank) == Some(
            "cannot create new bank if the default bank has already been used"@,
        ),
        state.banks@.len() > 0 && state.bankdata@[0].cur_bit_offset == 0 && (forall|j: int|
            1 <= j < state.banks@.len() ==> !bank.overlaps(#[trigger] state.banks@[j]))
            ==> state.bank_refusal(bank) is None,
        forall|j: int|
            #![trigger state.banks@[j]]
            1 <= j < state.banks@.len() && state.bankdata@[0].cur_bit_offset == 0 && bank.overlaps(
                state.banks@[j],
            ) && (forall|i: int| 1 <= i < j ==> !bank.overlaps(#[trigger] state.banks@[i]))
                ==> state.bank_refusal(bank) == Some(
                "output region overlaps with bank `"@ + state.banks@[j].name@ + "`"@,
            ),
{
    if state.bankdata@[0].cur_bit_offset == 0 {
        assert forall|j: int|
            #![trigger state.banks@[j]]
            1 <= j < state.banks@.len() && bank.overlaps(state.banks@[j]) && (forall|i: int|
                1 <= i < j ==> !bank.overlaps(
                    #[trigger] state.banks@[i],
                )) implies state.bank_refusal(bank) == Some(
            "output region overlaps with bank `"@ + state.banks@[j].name@ + "`"@,
        ) by {
            assert(crate::state::is_first_overlap(state.banks@, bank, j));
            let k = choose|k: int| crate::state::is_first_overlap(state.banks@, bank, k);
            assert(crate::state::is_first_overlap(state.banks@, bank, k));
            if k < j {
                assert(!bank.overlaps(state.banks@[k]));
            }
            if j < k {
                assert(!bank.overlaps(state.banks@[j]));
            }
        }
        if forall|j: int|
            1 <= j < state.banks@.len() ==> !bank.overlaps(#[trigger] state.banks@[j]) {
            assert forall|k: int| !crate::state::is_first_overlap(state.banks@, bank, k) by {
                if 1 <= k < state.banks@.len() {
                    assert(!bank.overlaps(state.banks@[k]));
                }
            }
        }
    }
}

/// Where outputs are disjoint, no two banks besides the default one take the same bit.
pub proof fn law_disjoint_banks_share_no_bit(state: State, i: int, j: int, position: int)
    requires
        state.outputs_disjoint(),
        1 <= i < j < state.banks@.len(),
    ensures
        !(claims(state.banks@[i], position) && claims(state.banks@[j], position)),
{
    law_apart_banks_share_no_bit(state.banks@[i], state.banks@[j], position);
}

/// Banks and their contents belong together: each holds the number of its bank, and the
/// current bank is one of them.
pub proof fn law_contents_belong_to_their_bank(state: State, i: int)
    requires
        state.wf(),
        0 <= i < state.banks@.len(),
    ensures
        i < state.bankdata@.len(),
        state.bankdata@[i].bank_ref.index == i,
        state.bankdata@.len() == state.banks@.len(),
        state.cur_bank.index < state.banks@.len(),
{
}

/// A bank is found by its name just when no earlier one has the same name, and a name is
/// unknown just when no bank has it.
pub proof fn law_bank_is_found_by_its_name(state: State, name: Seq<char>, i: int)
    ensures
        is_first_named(state.bank_names(), name, i) <==> {
            &&& 0 <= i < state.banks@.len()
            &&& state.banks@[i].name@ == name
            &&& forall|j: int| 0 <= j < i ==> (#[trigger] state.banks@[j]).name@ != name
        },
        state.bank_names().contains(name) <==> exists|j: int|
            0 <= j < state.banks@.len() && (#[trigger] state.banks@[j]).name@ == name,
{
    let names = state.bank_names();
    assert(names.len() == state.banks@.len());
    assert forall|j: int| 0 <= j < names.len() implies names[j]
        == (#[trigger] state.banks@[j]).name@ by {}
    if is_first_named(names, name, i) {
        assert forall|j: int| 0 <= j < i implies (#[trigger] state.banks@[j]).name@ != name by {
            assert(names[j] != name);
        }
    }
    if names.contains(name) {
        let j = choose|j: int| 0 <= j < names.len() && names[j] == name;
        assert(state.banks@[j].name@ == name);
    }
    if exists|j: int| 0 <= j < state.banks@.len() && (#[trigger] state.banks@[j]).name@ == name {
        let j = choose|j: int|
            0 <= j < state.banks@.len() && (#[trigger] state.banks@[j]).name@ == name;
        assert(names[j] == name);
    }
}

/// The same of rulesets.
pub proof fn law_ruleset_is_found_by_its_name(state: State, name: Seq<char>, i: int)
    ensures
        is_first_named(state.ruleset_names(), name, i) <==> {
            &&& 0 <= i < state.rulesets@.len()
            &&& state.rulesets@[i].name@ == name
            &&& forall|j: int| 0 <= j < i ==> (#[trigger] state.rulesets@[j]).name@ != name
        },
        state.ruleset_names().contains(name) <==> exists|j: int|
            0 <= j < state.rulesets@.len() && (#[trigger] state.rulesets@[j]).name@ == name,
{
    let names = state.ruleset_names();
    assert(names.len() == state.rulesets@.len());
    assert forall|j: int| 0 <= j < names.len() implies names[j]
        == (#[trigger] state.rulesets@[j]).name@ by {}
    if is_first_named(names, name, i) {
        assert forall|j: int| 0 <= j < i implies (#[trigger] state.rulesets@[j]).name@ != name by {
            assert(names[j] != name);
        }
    }
    if names.contains(name) {
        let j = choose|j: int| 0 <= j < names.len() && names[j] == name;
        assert(state.rulesets@[j].name@ == name);
    }
    if exists|j: int|
        0 <= j < state.rulesets@.len() && (#[trigger] state.rulesets@[j]).name@ == name {
        let j = choose|j: int|
            0 <= j < state.rulesets@.len() && (#[trigger] state.rulesets@[j]).name@ == name;
        assert(names[j] == name);
    }
}

/// At the start there is one bank, without lines and without a limit, whose words of eight
/// bits are counted from zero, both as addresses and in the output. Nothing else is there.
pub proof fn law_start_is_one_empty_bank(state: State)
    requires
        state.is_initial(),
    ensures
        state.banks@.len() == 1,
        state.bankdata@.len() == 1,
        state.bankdata@[0].bank_ref.index == 0,
        state.bankdata@[0].cur_bit_offset == 0,
        state.bankdata@[0].invocations@.len() == 0,
        state.banks@[0].name@.len() == 0,
        state.banks@[0].wordsize == 8,
        state.banks@[0].labelalign == 0,
        state.banks@[0].addr_start@.value == 0,
        state.banks@[0].output_offset == Some(0usize),
        !state.banks@[0].fill,
        forall|position: int| position >= 0 ==> #[trigger] claims(state.banks@[0], position),
        state.symbols.symbols@.len() == 0,
        state.symbols.cur_ctx.hierarchy@.len() == 0,
        state.rulesets@.len() == 0,
        state.active_rulesets@.len() == 0,
        state.cur_bank.index == 0,
        state.cur_wordsize == 8,
        state.cur_labelalign == 0,
{
    assert(state.symbols.cur_ctx@.len() == state.symbols.cur_ctx.hierarchy@.len());
}

/// Creating a bank keeps all banks and their contents as they are. The new one comes last,
/// takes no bits yet, and is where the source goes from then on, in its words.
pub proof fn law_new_bank_comes_last_and_is_current(before: State, after: State, bank: Bank)
    requires
        after.is_with_bank(before, bank),
    ensures
        after.banks@.len() == before.banks@.len() + 1,
        forall|i: int|
            0 <= i < before.banks@.len() ==> #[trigger] after.banks@[i] == before.banks@[i],
        after.banks@[before.banks@.len() as int] == bank,
        after.bankdata@.len() == before.bankdata@.len() + 1,
        forall|i: int|
            0 <= i < before.bankdata@.len() ==> #[trigger] after.bankdata@[i]
                == before.bankdata@[i],
        ({
            let data = after.bankdata@[before.bankdata@.len() as int];
            &&& data.bank_ref.index == before.banks@.len()
            &&& data.cur_bit_offset == 0
            &&& data.invocations@.len() == 0
        }),
        after.cur_bank.index == before.banks@.len(),
        after.cur_wordsize == bank.wordsize,
        after.cur_labelalign == bank.labelalign,
        after.is_first_pass == before.is_first_pass,
        after.symbols == before.symbols,
        after.symbol_guesses == before.symbol_guesses,
        after.rulesets == before.rulesets,
        after.active_rulesets == before.active_rulesets,
{
    assert forall|i: int| 0 <= i < before.bankdata@.len() implies #[trigger] after.bankdata@[i]
        == before.bankdata@[i] by {
        assert(after.bankdata@.drop_last()[i] == after.bankdata@[i]);
    }
}

/// Activating a ruleset adds the first one of that name to those that are active, and
/// changes nothing else.
pub proof fn law_activated_ruleset_comes_last(before: State, after: State, name: Seq<char>)
    requires
        after.is_with_ruleset(before, name),
    ensures
        ({
            let n = before.active_rulesets@.len() as int;
            let k = after.active_rulesets@[n].index as int;
            &&& after.active_rulesets@.len() == n + 1
            &&& forall|i: int|
                0 <= i < n ==> #[trigger] after.active_rulesets@[i] == before.active_rulesets@[i]
            &&& k < before.rulesets@.len()
            &&& before.rulesets@[k].name@ == name
            &&& forall|j: int| 0 <= j < k ==> (#[trigger] before.rulesets@[j]).name@ != name
        }),
        after.banks == before.banks,
        after.bankdata == before.bankdata,
        after.symbols == before.symbols,
        after.symbol_guesses == before.symbol_guesses,
        after.rulesets == before.rulesets,
        after.cur_bank == before.cur_bank,
        after.cur_wordsize == before.cur_wordsize,
        after.cur_labelalign == before.cur_labelalign,
        after.is_first_pass == before.is_first_pass,
{
    let n = before.active_rulesets@.len() as int;
    law_ruleset_is_found_by_its_name(before, name, after.active_rulesets@[n].index as int);
    assert forall|i: int| 0 <= i < n implies #[trigger] after.active_rulesets@[i]
        == before.active_rulesets@[i] by {
        assert(after.active_rulesets@.drop_last()[i] == after.active_rulesets@[i]);
    }
}

/// The current place is where the current bank has got to, in the current words, under the
/// labels and in the file that the source is in.
pub proof fn law_current_place_is_where_the_bank_ends(
    state: State,
    ctx: Context,
    filename: Rc<String>,
)
    requires
        state.is_current(ctx, filename),
        state.cur_bank.index < state.bankdata@.len(),
    ensures
        ctx.bank_ref.index == state.cur_bank.index,
        ctx.bit_offset == state.bankdata@[ctx.bank_ref.index as int].cur_bit_offset,
        ctx.cur_wordsize == state.cur_wordsize,
        ctx.cur_filename@ == filename@,
        ctx.symbol_ctx.hierarchy@.len() == state.symbols.cur_ctx.hierarchy@.len(),
        forall|k: int|
            0 <= k < ctx.symbol_ctx.hierarchy@.len() ==> (
            #[trigger] ctx.symbol_ctx.hierarchy@[k])@ == state.symbols.cur_ctx.hierarchy@[k]@,
{
    assert(ctx.symbol_ctx@.len() == ctx.symbol_ctx.hierarchy@.len());
    assert(state.symbols.cur_ctx@.len() == state.symbols.cur_ctx.hierarchy@.len());
    assert forall|k: int| 0 <= k < ctx.symbol_ctx.hierarchy@.len() implies (
    #[trigger] ctx.symbol_ctx.hierarchy@[k])@ == state.symbols.cur_ctx.hierarchy@[k]@ by {
        assert(ctx.symbol_ctx@[k] == ctx.symbol_ctx.hierarchy@[k]@);
        assert(state.symbols.cur_ctx@[k] == state.symbols.cur_ctx.hierarchy@[k]@);
    }
}

} // verus!
