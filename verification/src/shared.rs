//! A register behind a reader/writer lock, for use from several threads.

use crate::model::{identifier, Name};
use crate::register::SymbolRegister;
use crate::symbol::Symbol;
use vstd::prelude::*;
use vstd::rwlock::{RwLock, RwLockPredicate};

verus! {

/// What the lock keeps true of the register inside it: that it is well
/// formed, and that it still begins with the names it was shared with.
struct Extends {
    initial: Seq<Name>,
}

impl RwLockPredicate<SymbolRegister> for Extends {
    closed spec fn inv(self, register: SymbolRegister) -> bool {
        register.wf() && self.initial.is_prefix_of(register@)
    }
}

/// A register that can be shared: lookups take the lock for reading and run
/// side by side, and only the first request for a new name takes it for
/// writing.
///
/// Other threads may intern names between any two calls, so a contract here
/// cannot speak of all that the register holds. It speaks of the names that
/// the register was shared with, [`initial`](SharedRegister::initial): they
/// keep their identifiers for good, and every later name comes after them.
/// What is decided under the lock is decided by [`Symbol::lookup`],
/// [`Symbol::new`] and [`Symbol::try_name`], whose contracts are exact.
///
/// The lock is `vstd::rwlock::RwLock`. A thread that has to wait spins.
pub struct SharedRegister {
    lock: RwLock<SymbolRegister, Extends>,
}

impl SharedRegister {
    /// The names that the register held when it was shared, in the order of
    /// their identifiers.
    pub closed spec fn initial(&self) -> Seq<Name> {
        self.lock.pred().initial
    }

    /// A shared register without names.
    pub fn new() -> (shared: Self)
        ensures
            shared.initial() == Seq::<Name>::empty(),
    {
        SharedRegister::share(SymbolRegister::new())
    }

    /// Puts `register` behind a lock. The symbols that it has issued stay
    /// valid for the shared register.
    pub fn share(register: SymbolRegister) -> (shared: Self)
        requires
            register.wf(),
        ensures
            shared.initial() == register@,
    {
        let ghost holds = Extends { initial: register@ };
        assert(register@ =~= register@.subrange(0, register@.len() as int));
        SharedRegister { lock: RwLock::new(register, Ghost(holds)) }
    }

    /// The symbol with the given name. A name that the register holds is
    /// found under the read lock. Otherwise the write lock is taken and the
    /// name looked up once more before it is stored, so that of several
    /// threads asking for the same new name only the first one stores it.
    ///
    /// An initial name has the identifier that it had when the register was
    /// shared; any other name has an identifier after those.
    pub fn symbol(&self, name: &str) -> (symbol: Symbol)
        ensures
            self.initial().contains(name@) ==> symbol@ == identifier(self.initial(), name@),
            !self.initial().contains(name@) ==> symbol@ >= self.initial().len(),
    {
        let reading = self.lock.acquire_read();
        let found = Symbol::lookup(name, reading.borrow());
        proof {
            reading@.lemma_names_distinct();
            lemma_place_among_initial(self.initial(), reading@@, name@, found);
        }
        reading.release_read();
        if let Some(symbol) = found {
            return symbol;
        }
        let (mut register, writing) = self.lock.acquire_write();
        let ghost before = register@;
        let symbol = Symbol::new(name, &mut register);
        proof {
            register.lemma_names_distinct();
            assert(self.initial() =~= register@.subrange(0, self.initial().len() as int)) by {
                assert forall|i: int| 0 <= i < self.initial().len() implies self.initial()[i]
                    == register@[i] by {
                    assert(self.initial()[i] == before.subrange(
                        0,
                        self.initial().len() as int,
                    )[i]);
                }
            }
            lemma_place_among_initial(self.initial(), register@, name@, Some(symbol));
        }
        writing.release_write(register);
        symbol
    }

    /// The name of `symbol`, or `None` if this register has not issued a
    /// symbol with that identifier. A symbol of an initial name always has
    /// its name.
    pub fn name(&self, symbol: Symbol) -> (name: Option<String>)
        ensures
            symbol@ < self.initial().len() ==> name is Some,
            symbol@ < self.initial().len() ==> name.unwrap()@ == self.initial()[symbol@ as int],
    {
        let reading = self.lock.acquire_read();
        let name = symbol.try_name(reading.borrow());
        proof {
            if symbol@ < self.initial().len() {
                assert(self.initial()[symbol@ as int] == reading@@.subrange(
                    0,
                    self.initial().len() as int,
                )[symbol@ as int]);
            }
        }
        reading.release_read();
        name
    }

    /// The number of names that the register holds at the moment of the
    /// call: never fewer than it was shared with.
    pub fn len(&self) -> (count: usize)
        ensures
            count >= self.initial().len(),
    {
        let reading = self.lock.acquire_read();
        let count = reading.borrow().len();
        reading.release_read();
        count
    }
}

/// Where a name stands in a register that begins with `initial`: an initial
/// name at its initial position, and any other name after all of them. A
/// name that the register does not hold is none of the initial names.
proof fn lemma_place_among_initial(
    initial: Seq<Name>,
    names: Seq<Name>,
    name: Name,
    found: Option<Symbol>,
)
    requires
        names.no_duplicates(),
        initial.is_prefix_of(names),
        found.is_some() == names.contains(name),
        found matches Some(symbol) ==> symbol.denotes(names, name),
    ensures
        found is None ==> !initial.contains(name),
        found matches Some(symbol) ==> {
            &&& initial.contains(name) ==> symbol@ == identifier(initial, name)
            &&& !initial.contains(name) ==> symbol@ >= initial.len()
        },
{
    assert forall|i: int| 0 <= i < initial.len() implies initial[i] == names[i] by {
        assert(initial[i] == names.subrange(0, initial.len() as int)[i]);
    }
    if initial.contains(name) {
        let position = identifier(initial, name);
        assert(names[position] == name);
        if let Some(symbol) = found {
            assert(symbol@ == position);
        }
    } else if let Some(symbol) = found {
        if symbol@ < initial.len() {
            assert(initial[symbol@ as int] == name);
        }
    }
}

} // verus!
