//! Symbols, by their place in the hierarchy of labels.
use vstd::prelude::*;

use crate::expr::{Value, ValueView};
use crate::text::texts;

verus! {

/// The labels that enclose a place of the source, outermost first.
#[derive(Debug)]
pub struct SymbolContext {
    pub hierarchy: Vec<String>,
}

/// A value with a name.
#[derive(Debug)]
pub struct Symbol {
    /// The names of the labels around it and its own, outermost first.
    pub hierarchy: Vec<String>,
    pub value: Value,
}

/// The symbols defined so far, and the context of the next one.
#[derive(Debug)]
pub struct SymbolManager {
    pub symbols: Vec<Symbol>,
    pub cur_ctx: SymbolContext,
}

#[verifier::ext_equal]
pub struct SymbolView {
    pub hierarchy: Seq<Seq<char>>,
    pub value: ValueView,
}

#[verifier::ext_equal]
pub struct SymbolManagerView {
    pub symbols: Seq<SymbolView>,
    pub cur_ctx: Seq<Seq<char>>,
}

impl View for Symbol {
    type V = SymbolView;

    open spec fn view(&self) -> SymbolView {
        SymbolView { hierarchy: texts(self.hierarchy@), value: self.value@ }
    }
}

impl View for SymbolManager {
    type V = SymbolManagerView;

    open spec fn view(&self) -> SymbolManagerView {
        SymbolManagerView {
            symbols: self.symbols@.map_values(|s: Symbol| s@),
            cur_ctx: self.cur_ctx@,
        }
    }
}

impl View for SymbolContext {
    type V = Seq<Seq<char>>;

    open spec fn view(&self) -> Seq<Seq<char>> {
        texts(self.hierarchy@)
    }
}

impl Clone for SymbolContext {
    fn clone(&self) -> (r: SymbolContext)
        ensures
            r@ == self@,
    {
        let hierarchy = self.hierarchy.clone();
        assert(texts(hierarchy@) =~= texts(self.hierarchy@));
        SymbolContext { hierarchy }
    }
}

/// The full name of what `hierarchy` names below the first `level` labels of `ctx`.
pub open spec fn full_name(
    ctx: Seq<Seq<char>>,
    level: usize,
    hierarchy: Seq<Seq<char>>,
) -> Seq<Seq<char>> {
    ctx.take(level as int) + hierarchy
}

impl SymbolManager {
    /// Whether symbol `i` is the first one with that name.
    pub open spec fn is_first(self, name: Seq<Seq<char>>, i: int) -> bool {
        &&& 0 <= i < self.symbols@.len()
        &&& texts(self.symbols@[i].hierarchy@) == name
        &&& forall|j: int|
            0 <= j < i ==> texts(#[trigger] self.symbols@[j].hierarchy@) != name
    }

    /// Whether a symbol has that name.
    pub open spec fn defines(self, name: Seq<Seq<char>>) -> bool {
        exists|i: int| self.is_first(name, i)
    }

    /// Whether there are no symbols and no context.
    pub open spec fn is_empty(self) -> bool {
        &&& self.symbols@.len() == 0
        &&& self.cur_ctx@.len() == 0
    }

    /// What the name stands for, if it is defined. A name that needs more labels
    /// around it than there are is not.
    pub open spec fn lookup(
        self,
        ctx: Seq<Seq<char>>,
        level: usize,
        hierarchy: Seq<Seq<char>>,
    ) -> Option<ValueView> {
        let name = full_name(ctx, level, hierarchy);
        if level <= ctx.len() && self.defines(name) {
            Some(self.symbols@[choose|i: int| self.is_first(name, i)].value@)
        } else {
            None
        }
    }

    /// No symbols.
    pub fn new() -> (r: SymbolManager)
        ensures
            r.is_empty(),
    {
        SymbolManager { symbols: Vec::new(), cur_ctx: SymbolContext { hierarchy: Vec::new() } }
    }

    /// The current context.
    pub fn get_ctx(&self) -> (r: SymbolContext)
        ensures
            r@ == self.cur_ctx@,
    {
        self.cur_ctx.clone()
    }

    /// The first symbol that `hierarchy` names below the first `hierarchy_level`
    /// labels of `ctx`.
    pub fn get(
        &self,
        ctx: &SymbolContext,
        hierarchy_level: usize,
        hierarchy: &Vec<String>,
    ) -> (r: Option<&Symbol>)
        ensures
            match r {
                Some(symbol) => {
                    &&& hierarchy_level <= ctx@.len()
                    &&& exists|i: int|
                        {
                            &&& #[trigger] self.is_first(
                                full_name(ctx@, hierarchy_level, texts(hierarchy@)),
                                i,
                            )
                            &&& *symbol == self.symbols@[i]
                        }
                },
                None => hierarchy_level > ctx@.len() || !self.defines(
                    full_name(ctx@, hierarchy_level, texts(hierarchy@)),
                ),
            },
            self.lookup(ctx@, hierarchy_level, texts(hierarchy@)) == (match r {
                Some(symbol) => Some(symbol.value@),
                None => None,
            }),
    {
        if hierarchy_level > ctx.hierarchy.len() {
            return None;
        }
        let ghost name = full_name(ctx@, hierarchy_level, texts(hierarchy@));
        let mut i: usize = 0;
        while i < self.symbols.len()
            invariant
                i <= self.symbols@.len(),
                hierarchy_level <= ctx.hierarchy@.len(),
                name == full_name(ctx@, hierarchy_level, texts(hierarchy@)),
                forall|j: int|
                    0 <= j < i ==> texts(#[trigger] self.symbols@[j].hierarchy@) != name,
            decreases self.symbols@.len() - i,
        {
            let symbol = &self.symbols[i];
            if has_name(&symbol.hierarchy, &ctx.hierarchy, hierarchy_level, hierarchy) {
                proof {
                    assert(self.is_first(name, i as int));
                    let k = choose|k: int| self.is_first(name, k);
                    assert(self.is_first(name, k));
                    if k < i {
                        assert(texts(self.symbols@[k].hierarchy@) != name);
                    }
                    if i < k {
                        assert(texts(self.symbols@[i as int].hierarchy@) != name);
                    }
                }
                return Some(symbol);
            }
            i += 1;
        }
        None
    }
}

/// Whether `names` are the first `level` names of `outer`, followed by `inner`.
fn has_name(names: &Vec<String>, outer: &Vec<String>, level: usize, inner: &Vec<String>) -> (r: bool)
    requires
        level <= outer@.len(),
    ensures
        r == (texts(names@) == full_name(texts(outer@), level, texts(inner@))),
{
    let ghost full = full_name(texts(outer@), level, texts(inner@));
    if names.len() < level || names.len() - level != inner.len() {
        assert(texts(names@).len() != full.len());
        return false;
    }
    let mut i: usize = 0;
    while i < names.len()
        invariant
            i <= names@.len(),
            level <= outer@.len(),
            names@.len() == level + inner@.len(),
            full == full_name(texts(outer@), level, texts(inner@)),
            forall|j: int| 0 <= j < i ==> #[trigger] texts(names@)[j] == full[j],
        decreases names@.len() - i,
    {
        let other = if i < level {
            &outer[i]
        } else {
            &inner[i - level]
        };
        assert(other@ == full[i as int]);
        if names[i] != *other {
            assert(texts(names@)[i as int] != full[i as int]);
            return false;
        }
        assert(texts(names@)[i as int] == full[i as int]);
        i += 1;
    }
    assert(texts(names@) =~= full);
    true
}

} // verus!
