//! The mathematical model of a register: the sequence of its names, in the
//! order in which they were first seen. A name's identifier is its position.
//!
//! The proof functions of this module state what interning guarantees,
//! whatever register the names are kept in.

use vstd::prelude::*;

verus! {

/// The text of a name.
pub type Name = Seq<char>;

/// The names after `name` has been asked for: unchanged if it is already
/// there, otherwise with `name` appended.
pub open spec fn interned(names: Seq<Name>, name: Name) -> Seq<Name> {
    if names.contains(name) {
        names
    } else {
        names.push(name)
    }
}

/// The position at which `name` stands in `names`. Meaningful only where
/// `names` contains `name`; unique where `names` has no duplicates.
pub open spec fn identifier(names: Seq<Name>, name: Name) -> int {
    names.index_of(name)
}

/// The names after every name of `batch` has been asked for, first to last.
pub open spec fn interned_all(names: Seq<Name>, batch: Seq<Name>) -> Seq<Name>
    decreases batch.len(),
{
    if batch.len() == 0 {
        names
    } else {
        interned(interned_all(names, batch.drop_last()), batch.last())
    }
}

/// In a sequence without duplicates a name stands at one position only.
pub proof fn lemma_identifier_unique(names: Seq<Name>, name: Name, position: int)
    requires
        names.no_duplicates(),
        0 <= position < names.len(),
        names[position] == name,
    ensures
        identifier(names, name) == position,
{
}

/// Interning keeps the names free of duplicates and keeps every name that
/// was there at its position.
pub proof fn lemma_interned_extends(names: Seq<Name>, name: Name)
    requires
        names.no_duplicates(),
    ensures
        interned(names, name).no_duplicates(),
        names.is_prefix_of(interned(names, name)),
        interned(names, name).len() <= names.len() + 1,
{
    if !names.contains(name) {
        assert(names =~= names.push(name).subrange(0, names.len() as int));
    } else {
        assert(names =~= names.subrange(0, names.len() as int));
    }
}

/// Interning a batch keeps the names free of duplicates and keeps every name
/// that was there at its position.
pub proof fn lemma_interned_all_extends(names: Seq<Name>, batch: Seq<Name>)
    requires
        names.no_duplicates(),
    ensures
        interned_all(names, batch).no_duplicates(),
        names.is_prefix_of(interned_all(names, batch)),
    decreases batch.len(),
{
    if batch.len() == 0 {
        assert(names =~= names.subrange(0, names.len() as int));
    } else {
        let earlier = interned_all(names, batch.drop_last());
        lemma_interned_all_extends(names, batch.drop_last());
        lemma_interned_extends(earlier, batch.last());
        let all = interned(earlier, batch.last());
        assert(names =~= all.subrange(0, names.len() as int)) by {
            assert forall|i: int| 0 <= i < names.len() implies names[i] == all[i] by {
                assert(names[i] == earlier.subrange(0, names.len() as int)[i]);
                assert(earlier[i] == all.subrange(0, earlier.len() as int)[i]);
            }
        }
    }
}

/// Interning returns the name's identifier: the name stands at the position
/// that its handle holds.
pub proof fn lemma_round_trip(names: Seq<Name>, name: Name)
    ensures
        0 <= identifier(interned(names, name), name) < interned(names, name).len(),
        interned(names, name)[identifier(interned(names, name), name)] == name,
{
    let after = interned(names, name);
    if !names.contains(name) {
        assert(after[names.len() as int] == name);
    }
}

/// Interning the same name again changes nothing and gives the same
/// identifier.
pub proof fn lemma_intern_idempotent(names: Seq<Name>, name: Name)
    ensures
        interned(interned(names, name), name) == interned(names, name),
        identifier(interned(interned(names, name), name), name) == identifier(
            interned(names, name),
            name,
        ),
{
    lemma_round_trip(names, name);
}

/// Two names get the same identifier exactly when they are the same text:
/// with `first` interned and then `second`, their identifiers in the
/// resulting register are equal if and only if `first == second`.
pub proof fn lemma_intern_injective(names: Seq<Name>, first: Name, second: Name)
    requires
        names.no_duplicates(),
    ensures
        identifier(interned(names, first), first) == identifier(
            interned(interned(names, first), second),
            second,
        ) <==> first == second,
{
    let one = interned(names, first);
    let two = interned(one, second);
    lemma_round_trip(names, first);
    lemma_round_trip(one, second);
    lemma_intern_idempotent(names, first);
    lemma_interned_extends(names, first);
    lemma_interned_extends(one, second);
    if first != second {
        let i = identifier(one, first);
        let j = identifier(two, second);
        assert(two[i] == one.subrange(0, one.len() as int)[i]);
    }
}

/// An identifier never changes: whatever is interned later, a name that the
/// register holds keeps its position.
pub proof fn lemma_identifier_stable(names: Seq<Name>, name: Name, later: Seq<Name>)
    requires
        names.no_duplicates(),
        names.contains(name),
    ensures
        interned_all(names, later).contains(name),
        identifier(interned_all(names, later), name) == identifier(names, name),
{
    let after = interned_all(names, later);
    lemma_interned_all_extends(names, later);
    let position = identifier(names, name);
    assert(after[position] == names.subrange(0, names.len() as int)[position]);
    lemma_identifier_unique(after, name, position);
}

/// Identifiers follow the order of first appearance: if `first` is new when
/// it is interned, and `second` is still new after `first` and any number of
/// further names have been interned, then `first` gets the smaller
/// identifier.
pub proof fn lemma_creation_order(
    names: Seq<Name>,
    first: Name,
    between: Seq<Name>,
    second: Name,
)
    requires
        names.no_duplicates(),
        !names.contains(first),
        !interned_all(interned(names, first), between).contains(second),
    ensures
        identifier(interned(names, first), first) == names.len(),
        identifier(interned(interned_all(interned(names, first), between), second), second)
            == interned_all(interned(names, first), between).len(),
        identifier(interned(names, first), first) < identifier(
            interned(interned_all(interned(names, first), between), second),
            second,
        ),
{
    let one = interned(names, first);
    let middle = interned_all(one, between);
    let two = interned(middle, second);
    lemma_interned_extends(names, first);
    lemma_interned_all_extends(one, between);
    lemma_interned_extends(middle, second);
    assert(one[names.len() as int] == first);
    lemma_identifier_unique(one, first, names.len() as int);
    assert(two[middle.len() as int] == second);
    lemma_identifier_unique(two, second, middle.len() as int);
}

/// A name can be carried from one register to another as text: interning
/// the text that a handle names in `source` gives, in any register `target`,
/// a handle that names the same text.
pub proof fn lemma_transfer_by_text(source: Seq<Name>, id: int, target: Seq<Name>)
    requires
        0 <= id < source.len(),
    ensures
        interned(target, source[id])[identifier(interned(target, source[id]), source[id])]
            == source[id],
{
    lemma_round_trip(target, source[id]);
}

/// However often a new name is asked for, it is stored once: `count`
/// requests for the same new name, in whatever order they are served, add
/// one entry, and each of them is answered with the same identifier.
pub proof fn lemma_one_entry_per_name(names: Seq<Name>, name: Name, count: nat)
    requires
        !names.contains(name),
        count >= 1,
    ensures
        interned_all(names, Seq::new(count, |i: int| name)) == names.push(name),
        identifier(interned_all(names, Seq::new(count, |i: int| name)), name) == names.len(),
    decreases count,
{
    let requests = Seq::new(count, |i: int| name);
    let all = names.push(name);
    assert(all[names.len() as int] == name);
    assert(requests.last() == name);
    if count == 1 {
        assert(requests.drop_last() =~= Seq::<Name>::empty());
        assert(interned_all(names, requests.drop_last()) == names);
    } else {
        assert(requests.drop_last() =~= Seq::new((count - 1) as nat, |i: int| name));
        lemma_one_entry_per_name(names, name, (count - 1) as nat);
    }
    assert forall|i: int| 0 <= i < all.len() && all[i] == name implies i == names.len() by {
        if i < names.len() {
            assert(names[i] == name);
        }
    }
}

} // verus!
