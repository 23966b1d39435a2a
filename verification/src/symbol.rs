//! The symbol handle.

use crate::model::{
    identifier, interned, interned_all, lemma_identifier_unique, lemma_interned_extends, Name,
};
use crate::register::SymbolRegister;
use std::cmp::Ordering;
use vstd::prelude::*;
use vstd::std_specs::cmp::PartialOrdSpecImpl;

verus! {

/// A handle for a name kept in a [`SymbolRegister`]: the name's identifier
/// in that register.
///
/// Handles are equal when their identifiers are, and ordered as their
/// identifiers are, that is, in the order in which their names were first
/// seen by the register. A handle means something only together with the
/// register that issued it. An identifier is not portable: to carry a symbol
/// to another register, or another process, carry its name and intern it
/// there.
#[derive(Copy, Clone, Debug, PartialEq, Eq, Structural, Ord, Hash)]
pub struct Symbol {
    idx: usize,
}

impl View for Symbol {
    type V = nat;

    /// The identifier.
    closed spec fn view(&self) -> nat {
        self.idx as nat
    }
}

impl PartialOrd for Symbol {
    fn partial_cmp(&self, other: &Self) -> (order: Option<Ordering>) {
        if self.idx < other.idx {
            Some(Ordering::Less)
        } else if self.idx == other.idx {
            Some(Ordering::Equal)
        } else {
            Some(Ordering::Greater)
        }
    }
}

impl PartialOrdSpecImpl for Symbol {
    open spec fn obeys_partial_cmp_spec() -> bool {
        true
    }

    /// Symbols are ordered by identifier.
    open spec fn partial_cmp_spec(&self, other: &Self) -> Option<Ordering> {
        if self@ < other@ {
            Some(Ordering::Less)
        } else if self@ == other@ {
            Some(Ordering::Equal)
        } else {
            Some(Ordering::Greater)
        }
    }
}

impl Default for Symbol {
    /// The handle with identifier 0. It names whatever was interned first,
    /// and nothing in a register that is still empty.
    fn default() -> (symbol: Self)
        ensures
            symbol@ == 0,
    {
        Symbol { idx: 0 }
    }
}

impl Symbol {
    /// Whether this handle names `name` in a register that holds `names`.
    pub open spec fn denotes(self, names: Seq<Name>, name: Name) -> bool {
        self@ < names.len() && names[self@ as int] == name
    }

    /// Handles are equal exactly when their identifiers are.
    pub proof fn lemma_equal_by_identifier(self, other: Symbol)
        ensures
            self == other <==> self@ == other@,
    {
    }

    /// The symbol with the given name: the one that `register` already holds
    /// for it, or else a new one, whose name is stored last.
    pub fn new(name: &str, register: &mut SymbolRegister) -> (symbol: Self)
        requires
            old(register).wf(),
        ensures
            final(register).wf(),
            final(register)@ == interned(old(register)@, name@),
            symbol@ == identifier(final(register)@, name@),
            !old(register)@.contains(name@) ==> symbol@ == old(register)@.len(),
            symbol.denotes(final(register)@, name@),
    {
        let idx = register.idx(name);
        Symbol { idx }
    }

    /// The symbol with the given name, if `register` holds that name.
    pub fn lookup(name: &str, register: &SymbolRegister) -> (found: Option<Self>)
        requires
            register.wf(),
        ensures
            found.is_some() == register@.contains(name@),
            found matches Some(symbol) ==> symbol@ == identifier(register@, name@),
            found matches Some(symbol) ==> symbol.denotes(register@, name@),
    {
        match register.try_idx(name) {
            Some(idx) => Some(Symbol { idx }),
            None => None,
        }
    }

    /// The symbol's name, as a copy of the text that `register` holds.
    pub fn name(&self, register: &SymbolRegister) -> (name: String)
        requires
            self@ < register@.len(),
        ensures
            name@ == register@[self@ as int],
    {
        register.name(self.idx).to_owned()
    }

    /// The symbol's name, or `None` if `register` holds no name with this
    /// symbol's identifier.
    pub fn try_name(&self, register: &SymbolRegister) -> (name: Option<String>)
        ensures
            name.is_some() == (self@ < register@.len()),
            name matches Some(text) ==> text@ == register@[self@ as int],
    {
        if self.idx < register.len() {
            Some(self.name(register))
        } else {
            None
        }
    }

    /// The symbol's identifier.
    pub fn id(&self) -> (id: usize)
        ensures
            id == self@,
    {
        self.idx
    }
}

/// The texts of a list of names.
pub open spec fn texts(names: Seq<&str>) -> Seq<Name> {
    Seq::new(names.len(), |i: int| names[i]@)
}

/// One symbol for each of `names`, interned first to last. The symbol at
/// position `i` is the one for `names[i]`.
pub fn symbols(names: &[&str], register: &mut SymbolRegister) -> (symbols: Vec<Symbol>)
    requires
        old(register).wf(),
    ensures
        final(register).wf(),
        final(register)@ == interned_all(old(register)@, texts(names@)),
        symbols@.len() == names@.len(),
        forall|i: int|
            0 <= i < names@.len() ==> {
                &&& (#[trigger] symbols@[i])@ == identifier(final(register)@, names@[i]@)
                &&& symbols@[i].denotes(final(register)@, names@[i]@)
            },
{
    let mut symbols: Vec<Symbol> = Vec::new();
    let mut done: usize = 0;
    assert(texts(names@).take(0) =~= Seq::<Name>::empty());
    while done < names.len()
        invariant
            done <= names@.len(),
            register.wf(),
            register@ == interned_all(old(register)@, texts(names@).take(done as int)),
            symbols@.len() == done,
            forall|i: int|
                0 <= i < done ==> {
                    &&& (#[trigger] symbols@[i])@ == identifier(register@, names@[i]@)
                    &&& symbols@[i].denotes(register@, names@[i]@)
                },
        decreases names@.len() - done,
    {
        let ghost before = register@;
        proof {
            register.lemma_names_distinct();
        }
        let symbol = Symbol::new(names[done], register);
        proof {
            let batch = texts(names@).take(done + 1);
            assert(batch.drop_last() =~= texts(names@).take(done as int));
            assert(batch.last() == names@[done as int]@);
            register.lemma_names_distinct();
            lemma_interned_extends(before, names@[done as int]@);
            assert forall|i: int| 0 <= i < done implies {
                &&& (#[trigger] symbols@[i])@ == identifier(register@, names@[i]@)
                &&& symbols@[i].denotes(register@, names@[i]@)
            } by {
                let position = symbols@[i]@ as int;
                assert(before[position] == register@.subrange(0, before.len() as int)[position]);
                lemma_identifier_unique(register@, names@[i]@, position);
            }
        }
        symbols.push(symbol);
        done += 1;
    }
    assert(texts(names@).take(done as int) =~= texts(names@));
    symbols
}

} // verus!
