//! The state of an assembly: banks, symbols and rules.
use vstd::prelude::*;

use crate::bank::{Bank, BankData, BankDataView, BankView};
use crate::bigint::{plain_integer, BigInt, IntegerView};
use crate::diagn::{error, MessageView, Report, Span};
use crate::ruleset::{Rule, Ruleset, RulesetView};
use crate::symbol::{SymbolContext, SymbolManager, SymbolManagerView};
use crate::text::{decimal, enclosed};
use std::rc::Rc;

verus! {

/// All that the source has defined so far.
pub struct State {
    pub is_first_pass: bool,
    pub banks: Vec<Bank>,
    pub bankdata: Vec<BankData>,
    pub symbols: SymbolManager,
    pub symbol_guesses: SymbolManager,
    pub rulesets: Vec<Ruleset>,
    pub active_rulesets: Vec<RulesetRef>,
    pub cur_bank: BankRef,
    pub cur_wordsize: usize,
    pub cur_labelalign: usize,
}

/// A place in the output, as the source at that place sees it.
#[derive(Debug)]
pub struct Context {
    pub bit_offset: usize,
    pub cur_wordsize: usize,
    pub bank_ref: BankRef,
    pub symbol_ctx: SymbolContext,
    pub cur_filename: Rc<String>,
}

#[derive(Copy, Clone, Debug, Eq, PartialEq, Hash)]
pub struct BankRef {
    pub index: usize,
}

#[derive(Copy, Clone, Debug, Eq, PartialEq, Hash)]
pub struct RulesetRef {
    pub index: usize,
}

#[derive(Copy, Clone, Debug, Eq, PartialEq, Hash)]
pub struct RuleRef {
    pub ruleset_ref: RulesetRef,
    pub index: usize,
}

#[verifier::ext_equal]
pub struct StateView {
    pub is_first_pass: bool,
    pub banks: Seq<BankView>,
    pub bankdata: Seq<BankDataView>,
    pub symbols: SymbolManagerView,
    pub symbol_guesses: SymbolManagerView,
    pub rulesets: Seq<RulesetView>,
    pub active_rulesets: Seq<RulesetRef>,
    pub cur_bank: BankRef,
    pub cur_wordsize: usize,
    pub cur_labelalign: usize,
}

#[verifier::ext_equal]
pub struct ContextView {
    pub bit_offset: usize,
    pub cur_wordsize: usize,
    pub bank_ref: BankRef,
    pub symbol_ctx: Seq<Seq<char>>,
    pub cur_filename: Seq<char>,
}

impl View for State {
    type V = StateView;

    open spec fn view(&self) -> StateView {
        StateView {
            is_first_pass: self.is_first_pass,
            banks: self.banks@.map_values(|b: Bank| b@),
            bankdata: self.bankdata@.map_values(|d: BankData| d@),
            symbols: self.symbols@,
            symbol_guesses: self.symbol_guesses@,
            rulesets: self.rulesets@.map_values(|r: Ruleset| r@),
            active_rulesets: self.active_rulesets@,
            cur_bank: self.cur_bank,
            cur_wordsize: self.cur_wordsize,
            cur_labelalign: self.cur_labelalign,
        }
    }
}

impl View for Context {
    type V = ContextView;

    open spec fn view(&self) -> ContextView {
        ContextView {
            bit_offset: self.bit_offset,
            cur_wordsize: self.cur_wordsize,
            bank_ref: self.bank_ref,
            symbol_ctx: self.symbol_ctx@,
            cur_filename: self.cur_filename@,
        }
    }
}

/// What the state needs to know of a parser that works on it.
pub struct ParserState {
    pub filename: Rc<String>,
}

/// Another pointer to the same name.
///
/// This is `Rc::clone`, which gives a pointer to the same allocation: what it
/// points to is what `name` points to.
#[verifier::external_body]
fn share(name: &Rc<String>) -> (r: Rc<String>)
    ensures
        r == name,
{
    name.clone()
}

impl Clone for Context {
    fn clone(&self) -> (r: Context)
        ensures
            r.bit_offset == self.bit_offset,
            r.cur_wordsize == self.cur_wordsize,
            r.bank_ref == self.bank_ref,
            r.symbol_ctx@ == self.symbol_ctx@,
            r.cur_filename == self.cur_filename,
    {
        Context {
            bit_offset: self.bit_offset,
            cur_wordsize: self.cur_wordsize,
            bank_ref: self.bank_ref,
            symbol_ctx: self.symbol_ctx.clone(),
            cur_filename: share(&self.cur_filename),
        }
    }
}

/// The message on a position between two addresses.
pub open spec fn unaligned_text(bits_short: nat) -> Seq<char> {
    "position is not aligned to an address boundary ("@ + decimal(bits_short) + " "@ + (
    if bits_short > 1 {
        "bits"@
    } else {
        "bit"@
    }) + " short)"@
}

/// The message on a bank that claims the output of the bank `name`.
pub open spec fn overlap_text(name: Seq<char>) -> Seq<char> {
    "output region overlaps with bank `"@ + name + "`"@
}

/// Whether item `i` is the first one with that name.
pub open spec fn is_first_named(names: Seq<Seq<char>>, name: Seq<char>, i: int) -> bool {
    &&& 0 <= i < names.len()
    &&& names[i] == name
    &&& forall|j: int| 0 <= j < i ==> names[j] != name
}

/// Whether bank `j` is the first one besides the default bank that claims the
/// same part of the output as `bank`.
pub open spec fn is_first_overlap(banks: Seq<Bank>, bank: Bank, j: int) -> bool {
    &&& 1 <= j < banks.len()
    &&& bank.overlaps(banks[j])
    &&& forall|i: int| 1 <= i < j ==> !bank.overlaps(#[trigger] banks[i])
}

impl State {
    /// Banks and their contents belong together, one to one, and one of the banks
    /// is the current one.
    pub open spec fn wf(self) -> bool {
        &&& self.banks@.len() == self.bankdata@.len()
        &&& self.cur_bank.index < self.banks@.len()
        &&& forall|i: int|
            0 <= i < self.bankdata@.len() ==> (#[trigger] self.bankdata@[i]).bank_ref.index == i
    }

    /// No two banks besides the default bank claim the same part of the output.
    pub open spec fn outputs_disjoint(self) -> bool {
        forall|i: int, j: int|
            1 <= i < j < self.banks@.len() ==> !(#[trigger] self.banks@[i]).overlaps(
                #[trigger] self.banks@[j],
            )
    }

    /// The names of the banks.
    pub open spec fn bank_names(self) -> Seq<Seq<char>> {
        self.banks@.map_values(|b: Bank| b.name@)
    }

    /// The names of the rulesets.
    pub open spec fn ruleset_names(self) -> Seq<Seq<char>> {
        self.rulesets@.map_values(|r: Ruleset| r.name@)
    }

    /// Whether something was put into the default bank.
    pub open spec fn default_bank_used(self) -> bool {
        self.banks@.len() > 0 && self.bankdata@[0].cur_bit_offset != 0
    }

    /// Why `bank` may not be created, if so.
    pub open spec fn bank_refusal(self, bank: Bank) -> Option<Seq<char>> {
        if self.default_bank_used() {
            Some("cannot create new bank if the default bank has already been used"@)
        } else if exists|j: int| is_first_overlap(self.banks@, bank, j) {
            let j = choose|j: int| is_first_overlap(self.banks@, bank, j);
            Some(overlap_text(self.banks@[j].name@))
        } else {
            None
        }
    }

    /// Whether this is the state `before` with one more bank, which is the current one
    /// and still empty.
    pub open spec fn is_with_bank(self, before: State, bank: Bank) -> bool {
        &&& self.banks@ == before.banks@.push(bank)
        &&& self.bankdata@.len() == before.bankdata@.len() + 1
        &&& self.bankdata@.drop_last() == before.bankdata@
        &&& self.bankdata@.last().bank_ref == self.cur_bank
        &&& self.bankdata@.last().cur_bit_offset == 0
        &&& self.bankdata@.last().invocations@.len() == 0
        &&& self.cur_bank.index == before.banks@.len()
        &&& self.cur_wordsize == bank.wordsize
        &&& self.cur_labelalign == bank.labelalign
        &&& self.is_first_pass == before.is_first_pass
        &&& self.symbols == before.symbols
        &&& self.symbol_guesses == before.symbol_guesses
        &&& self.rulesets == before.rulesets
        &&& self.active_rulesets == before.active_rulesets
    }

    /// Whether `ctx` is the current place, in the file of that name.
    pub open spec fn is_current(self, ctx: Context, filename: Rc<String>) -> bool {
        &&& ctx.bit_offset == self.bankdata@[self.cur_bank.index as int].cur_bit_offset
        &&& ctx.cur_wordsize == self.cur_wordsize
        &&& ctx.bank_ref == self.cur_bank
        &&& ctx.symbol_ctx@ == self.symbols.cur_ctx@
        &&& ctx.cur_filename == filename
    }

    /// Whether this is the state `before` with the ruleset of that name active as well.
    pub open spec fn is_with_ruleset(self, before: State, name: Seq<char>) -> bool {
        &&& self.active_rulesets@.len() == before.active_rulesets@.len() + 1
        &&& self.active_rulesets@.drop_last() == before.active_rulesets@
        &&& is_first_named(
            before.ruleset_names(),
            name,
            self.active_rulesets@.last().index as int,
        )
        &&& self == (State { active_rulesets: self.active_rulesets, ..before })
    }

    /// Whether nothing was defined yet: there is the default bank and nothing else.
    pub open spec fn is_initial(self) -> bool {
        &&& self.wf()
        &&& self.banks@.len() == 1
        &&& self.banks@[0].is_default()
        &&& self.bankdata@[0].cur_bit_offset == 0
        &&& self.bankdata@[0].invocations@.len() == 0
        &&& self.symbols.is_empty()
        &&& self.rulesets@.len() == 0
        &&& self.active_rulesets@.len() == 0
        &&& self.cur_bank.index == 0
        &&& self.cur_wordsize == 8
        &&& self.cur_labelalign == 0
    }

    /// Whether `ctx` is in a bank of the state.
    pub open spec fn has_place(self, ctx: Context) -> bool {
        &&& ctx.bank_ref.index < self.banks@.len()
        &&& ctx.cur_wordsize > 0
    }

    /// The address of the word that holds the position of `ctx`.
    pub open spec fn addr_of(self, ctx: Context) -> IntegerView {
        plain_integer(
            ctx.bit_offset as int / ctx.cur_wordsize as int
                + self.banks@[ctx.bank_ref.index as int].addr_start@.value,
        )
    }

    /// How many bits the position of `ctx` is after an address.
    pub open spec fn excess_bits(self, ctx: Context) -> int {
        ctx.bit_offset as int % ctx.cur_wordsize as int
    }

    /// The error on a position that is not at an address.
    pub open spec fn unaligned_error(self, ctx: Context, span: Span) -> MessageView {
        error(unaligned_text((ctx.cur_wordsize - self.excess_bits(ctx)) as nat), span)
    }

    /// A state in which nothing is defined.
    pub fn new() -> (r: State)
        ensures
            r.is_initial(),
            !r.is_first_pass,
            r.symbol_guesses.is_empty(),
            r.outputs_disjoint(),
    {
        let mut state = State {
            is_first_pass: false,
            banks: Vec::new(),
            bankdata: Vec::new(),
            symbols: SymbolManager::new(),
            symbol_guesses: SymbolManager::new(),
            rulesets: Vec::new(),
            active_rulesets: Vec::new(),
            cur_bank: BankRef { index: 0 },
            cur_wordsize: 8,
            cur_labelalign: 0,
        };
        let mut report = Report::new();
        let _ = state.create_bank(Bank::new_default(), &mut report);
        state
    }

    /// The current place in the output.
    pub fn get_ctx(&self, state: &ParserState) -> (r: Context)
        requires
            self.cur_bank.index < self.bankdata@.len(),
        ensures
            self.is_current(r, state.filename),
    {
        let bit_offset = self.get_bankdata(self.cur_bank).cur_bit_offset;
        let cur_wordsize = self.cur_wordsize;
        let bank_ref = self.cur_bank;
        let symbol_ctx = self.symbols.get_ctx();
        let cur_filename = share(&state.filename);

        Context { bit_offset, cur_wordsize, bank_ref, symbol_ctx, cur_filename }
    }

    /// The address at the position of `ctx`. It is an error if the position is
    /// between two addresses.
    pub fn get_addr(&self, report: &mut Report, ctx: &Context, span: Span) -> (r: Result<
        BigInt,
        (),
    >)
        requires
            self.has_place(*ctx),
        ensures
            match r {
                Ok(addr) => {
                    &&& self.excess_bits(*ctx) == 0
                    &&& addr@ == self.addr_of(*ctx)
                    &&& final(report)@ == old(report)@
                },
                Err(()) => {
                    &&& self.excess_bits(*ctx) != 0
                    &&& final(report)@ == old(report)@.with(
                        seq![self.unaligned_error(*ctx, span)],
                    )
                },
            },
    {
        let wordsize = ctx.cur_wordsize;

        let excess_bits = ctx.bit_offset % wordsize;
        if excess_bits != 0 {
            let bits_short = wordsize - excess_bits;
            let plural = if bits_short > 1 {
                "bits"
            } else {
                "bit"
            };
            let mut text = "position is not aligned to an address boundary (".to_owned();
            crate::text::append_decimal(&mut text, bits_short);
            text.append(" ");
            text.append(plural);
            text.append(" short)");
            report.error_span(text.as_str(), span);

            return Err(());
        }
        Ok(self.get_addr_aprox(ctx))
    }

    /// The address of the word that holds the position of `ctx`.
    pub fn get_addr_aprox(&self, ctx: &Context) -> (r: BigInt)
        requires
            self.has_place(*ctx),
        ensures
            r@ == self.addr_of(*ctx),
    {
        let bank = &self.banks[ctx.bank_ref.index];
        let wordsize = ctx.cur_wordsize;

        BigInt::from_usize(ctx.bit_offset / wordsize).plus(&bank.addr_start)
    }

    /// Adds a bank and makes it the current one.
    pub fn create_bank(&mut self, bank: Bank, report: &mut Report) -> (r: Result<(), ()>)
        requires
            old(self).banks@.len() > 0 ==> old(self).bankdata@.len() > 0,
            old(self).bank_refusal(bank) is Some ==> bank.decl_span is Some,
        ensures
            match old(self).bank_refusal(bank) {
                Some(text) => {
                    &&& r is Err
                    &&& *final(self) == *old(self)
                    &&& final(report)@ == old(report)@.with(
                        seq![error(text, bank.decl_span->Some_0)],
                    )
                },
                None => {
                    &&& r is Ok
                    &&& final(report)@ == old(report)@
                    &&& final(self).is_with_bank(*old(self), bank)
                },
            },
            old(self).wf() ==> final(self).wf(),
            old(self).outputs_disjoint() ==> final(self).outputs_disjoint(),
    {
        if self.banks.len() > 0 && self.bankdata[0].cur_bit_offset != 0 {
            if let Some(span) = bank.decl_span {
                report.error_span(
                    "cannot create new bank if the default bank has already been used",
                    span,
                );
            }
            return Err(());
        }
        let mut j: usize = 1;
        while j < self.banks.len()
            invariant
                1 <= j,
                *self == *old(self),
                report@ == old(report)@,
                !self.default_bank_used(),
                forall|i: int|
                    1 <= i < j && i < self.banks@.len() ==> !bank.overlaps(
                        #[trigger] self.banks@[i],
                    ),
                self.bank_refusal(bank) is Some ==> bank.decl_span is Some,
            decreases self.banks@.len() - j,
        {
            let other_bank = &self.banks[j];

            if bank.output_overlaps(other_bank) {
                proof {
                    assert(is_first_overlap(self.banks@, bank, j as int));
                    let k = choose|k: int| is_first_overlap(self.banks@, bank, k);
                    assert(is_first_overlap(self.banks@, bank, k));
                    assert(k == j) by {
                        if j < k {
                            assert(!bank.overlaps(self.banks@[j as int]));
                        }
                        if k < j {
                            assert(!bank.overlaps(self.banks@[k]));
                        }
                    }
                }
                if let Some(span) = bank.decl_span {
                    let text = enclosed(
                        "output region overlaps with bank `",
                        other_bank.name.as_str(),
                        "`",
                    );
                    report.error_span(text.as_str(), span);
                }
                return Err(());
            }
            j += 1;
        }
        proof {
            assert forall|k: int| !is_first_overlap(self.banks@, bank, k) by {
                if 1 <= k < self.banks@.len() {
                    assert(!bank.overlaps(self.banks@[k]));
                }
            }
        }
        let bank_ref = BankRef { index: self.banks.len() };

        self.cur_bank = bank_ref;
        self.cur_wordsize = bank.wordsize;
        self.cur_labelalign = bank.labelalign;

        self.banks.push(bank);

        self.bankdata.push(BankData { bank_ref, cur_bit_offset: 0, invocations: Vec::new() });
        assert(self.bankdata@.drop_last() =~= old(self).bankdata@);
        proof {
            if old(self).outputs_disjoint() {
                assert forall|i: int, j: int| 1 <= i < j < self.banks@.len() implies !(
                #[trigger] self.banks@[i]).overlaps(#[trigger] self.banks@[j]) by {
                    assert(self.banks@[i] == old(self).banks@[i]);
                    if j < old(self).banks@.len() {
                        assert(self.banks@[j] == old(self).banks@[j]);
                    }
                }
            }
            if old(self).wf() {
                assert forall|i: int| 0 <= i < self.bankdata@.len() implies (
                #[trigger] self.bankdata@[i]).bank_ref.index == i by {
                    if i < old(self).bankdata@.len() {
                        assert(self.bankdata@[i] == old(self).bankdata@[i]);
                    }
                }
            }
        }

        Ok(())
    }

    /// The first bank of that name.
    pub fn find_bank(&self, name: &str, report: &mut Report, span: Span) -> (r: Result<
        BankRef,
        (),
    >)
        ensures
            match r {
                Ok(bank_ref) => {
                    &&& is_first_named(self.bank_names(), name@, bank_ref.index as int)
                    &&& final(report)@ == old(report)@
                },
                Err(()) => {
                    &&& !self.bank_names().contains(name@)
                    &&& final(report)@ == old(report)@.with(seq![error("unknown bank"@, span)])
                },
            },
    {
        let wanted = name.to_owned();
        let mut index: usize = 0;
        while index < self.banks.len()
            invariant
                index <= self.banks@.len(),
                wanted@ == name@,
                report@ == old(report)@,
                forall|j: int| 0 <= j < index ==> self.bank_names()[j] != name@,
            decreases self.banks@.len() - index,
        {
            assert(self.bank_names()[index as int] == self.banks@[index as int].name@);
            if self.banks[index].name == wanted {
                return Ok(BankRef { index });
            }
            index += 1;
        }
        report.error_span("unknown bank", span);
        Err(())
    }

    /// What was put into a bank so far.
    pub fn get_bankdata(&self, bank_ref: BankRef) -> (r: &BankData)
        requires
            bank_ref.index < self.bankdata@.len(),
        ensures
            *r == self.bankdata@[bank_ref.index as int],
    {
        &self.bankdata[bank_ref.index]
    }

    /// What was put into a bank so far, to be changed.
    pub fn get_bankdata_mut(&mut self, bank_ref: BankRef) -> (r: &mut BankData)
        requires
            bank_ref.index < old(self).bankdata@.len(),
        ensures
            *r == old(self).bankdata@[bank_ref.index as int],
            final(self).bankdata@ == old(self).bankdata@.update(
                bank_ref.index as int,
                *final(r),
            ),
            final(self).is_first_pass == old(self).is_first_pass,
            final(self).banks == old(self).banks,
            final(self).symbols == old(self).symbols,
            final(self).symbol_guesses == old(self).symbol_guesses,
            final(self).rulesets == old(self).rulesets,
            final(self).active_rulesets == old(self).active_rulesets,
            final(self).cur_bank == old(self).cur_bank,
            final(self).cur_wordsize == old(self).cur_wordsize,
            final(self).cur_labelalign == old(self).cur_labelalign,
    {
        &mut self.bankdata[bank_ref.index]
    }

    /// The first ruleset of that name.
    pub fn find_ruleset(&self, name: &str, report: &mut Report, span: Span) -> (r: Result<
        RulesetRef,
        (),
    >)
        ensures
            match r {
                Ok(ruleset_ref) => {
                    &&& is_first_named(self.ruleset_names(), name@, ruleset_ref.index as int)
                    &&& final(report)@ == old(report)@
                },
                Err(()) => {
                    &&& !self.ruleset_names().contains(name@)
                    &&& final(report)@ == old(report)@.with(seq![error("unknown ruleset"@, span)])
                },
            },
    {
        let wanted = name.to_owned();
        let mut index: usize = 0;
        while index < self.rulesets.len()
            invariant
                index <= self.rulesets@.len(),
                wanted@ == name@,
                report@ == old(report)@,
                forall|j: int| 0 <= j < index ==> self.ruleset_names()[j] != name@,
            decreases self.rulesets@.len() - index,
        {
            assert(self.ruleset_names()[index as int] == self.rulesets@[index as int].name@);
            if self.rulesets[index].name == wanted {
                return Ok(RulesetRef { index });
            }
            index += 1;
        }
        report.error_span("unknown ruleset", span);
        Err(())
    }

    /// Lets the rules of that ruleset match from now on.
    pub fn activate_ruleset(&mut self, name: &str, report: &mut Report, span: Span) -> (r: Result<
        (),
        (),
    >)
        ensures
            match r {
                Ok(()) => {
                    &&& final(self).is_with_ruleset(*old(self), name@)
                    &&& final(report)@ == old(report)@
                },
                Err(()) => {
                    &&& !old(self).ruleset_names().contains(name@)
                    &&& *final(self) == *old(self)
                    &&& final(report)@ == old(report)@.with(seq![error("unknown ruleset"@, span)])
                },
            },
    {
        let found = self.find_ruleset(name, report, span);
        match found {
            Ok(rg_ref) => {
                self.active_rulesets.push(rg_ref);
                assert(self.active_rulesets@.drop_last() =~= old(self).active_rulesets@);
                Ok(())
            },
            Err(()) => Err(()),
        }
    }

    /// Whether `rule_ref` is a rule of the state.
    pub open spec fn has_rule(self, rule_ref: RuleRef) -> bool {
        &&& rule_ref.ruleset_ref.index < self.rulesets@.len()
        &&& rule_ref.index < self.rulesets@[rule_ref.ruleset_ref.index as int].rules@.len()
    }

    /// The rule that `rule_ref` stands for.
    pub open spec fn rule_of(self, rule_ref: RuleRef) -> Rule {
        self.rulesets@[rule_ref.ruleset_ref.index as int].rules@[rule_ref.index as int]
    }

    /// The rule that `rule_ref` stands for.
    pub fn get_rule(&self, rule_ref: RuleRef) -> (r: Option<&Rule>)
        requires
            self.has_rule(rule_ref),
        ensures
            r matches Some(rule) && *rule == self.rule_of(rule_ref),
    {
        Some(&self.rulesets[rule_ref.ruleset_ref.index].rules[rule_ref.index])
    }
}

} // verus!
