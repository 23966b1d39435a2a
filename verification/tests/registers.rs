use math_symbols::{SharedRegister, Symbol, SymbolRegister};
use std::sync::Arc;

#[test]
fn a_new_register_is_empty() {
    let register = SymbolRegister::new();
    assert_eq!(register.len(), 0);
    assert_eq!(register.try_idx("x"), None);
    assert_eq!(register.try_idx(""), None);
}

#[test]
fn idx_appends_new_names_and_finds_old_ones() {
    let mut register = SymbolRegister::new();
    assert_eq!(register.idx("x"), 0);
    assert_eq!(register.idx("y"), 1);
    assert_eq!(register.idx("x"), 0);
    assert_eq!(register.idx("z"), 2);
    assert_eq!(register.idx("y"), 1);
    assert_eq!(register.len(), 3);
    assert_eq!(register.name(0), "x");
    assert_eq!(register.name(1), "y");
    assert_eq!(register.name(2), "z");
}

#[test]
fn try_idx_does_not_change_the_register() {
    let mut register = SymbolRegister::new();
    register.idx("x");
    assert_eq!(register.try_idx("x"), Some(0));
    assert_eq!(register.try_idx("y"), None);
    assert_eq!(register.len(), 1);
    assert_eq!(register.idx("y"), 1);
    assert_eq!(register.try_idx("y"), Some(1));
    assert_eq!(register.try_idx("x"), Some(0));
}

#[test]
fn the_empty_text_is_a_name_like_any_other() {
    let mut register = SymbolRegister::new();
    assert_eq!(register.idx("a"), 0);
    assert_eq!(register.idx(""), 1);
    assert_eq!(register.idx(""), 1);
    assert_eq!(register.name(1), "");
    assert_eq!(register.try_idx(""), Some(1));
}

#[test]
fn names_that_differ_in_one_character_are_different_names() {
    let mut register = SymbolRegister::new();
    assert_eq!(register.idx("alpha"), 0);
    assert_eq!(register.idx("alphb"), 1);
    assert_eq!(register.idx("Alpha"), 2);
    assert_eq!(register.idx("alpha "), 3);
    assert_eq!(register.try_idx("alph"), None);
    assert_eq!(register.idx("alpha"), 0);
}

#[test]
fn many_names_keep_their_identifiers() {
    let mut register = SymbolRegister::new();
    for i in 0..1000 {
        assert_eq!(register.idx(&format!("v{}", i)), i);
    }
    for i in (0..1000).rev() {
        assert_eq!(register.try_idx(&format!("v{}", i)), Some(i));
        assert_eq!(register.idx(&format!("v{}", i)), i);
        assert_eq!(register.name(i), format!("v{}", i));
    }
    assert_eq!(register.len(), 1000);
}

#[test]
fn a_shared_register_interns_like_a_plain_one() {
    let shared = SharedRegister::new();
    assert_eq!(shared.len(), 0);
    let x = shared.symbol("x");
    let y = shared.symbol("y");
    let z = shared.symbol("z");
    assert_eq!(x.id(), 0);
    assert_eq!(y.id(), 1);
    assert_eq!(z.id(), 2);
    assert_eq!(shared.symbol("x"), x);
    assert!(x < y && y < z);
    assert_eq!(shared.name(x), Some(String::from("x")));
    assert_eq!(shared.name(y), Some(String::from("y")));
    assert_eq!(shared.name(z), Some(String::from("z")));
    assert_eq!(shared.len(), 3);
}

#[test]
fn a_shared_register_has_no_name_for_a_foreign_symbol() {
    let mut other = SymbolRegister::new();
    Symbol::new("a", &mut other);
    let b = Symbol::new("b", &mut other);
    let shared = SharedRegister::new();
    assert_eq!(shared.name(b), None);
    assert_eq!(shared.name(Symbol::default()), None);
    shared.symbol("only");
    assert_eq!(shared.name(b), None);
    assert_eq!(shared.name(Symbol::default()), Some(String::from("only")));
}

#[test]
fn repeated_requests_for_one_new_name_share_one_identifier() {
    let shared = Arc::new(SharedRegister::new());
    shared.symbol("before");
    let length_before = shared.len();
    let holders: Vec<Arc<SharedRegister>> = (0..8).map(|_| Arc::clone(&shared)).collect();
    let results: Vec<Symbol> = holders.iter().map(|holder| holder.symbol("fresh")).collect();
    assert_eq!(results.len(), 8);
    for result in &results {
        assert_eq!(*result, results[0]);
        assert_eq!(shared.name(*result), Some(String::from("fresh")));
    }
    assert_eq!(results[0].id(), length_before);
    assert_eq!(shared.len(), length_before + 1);
}

#[test]
fn interleaved_requests_for_many_names_store_each_once() {
    let shared = Arc::new(SharedRegister::new());
    let holders: Vec<Arc<SharedRegister>> = (0..4).map(|_| Arc::clone(&shared)).collect();
    let mut results: Vec<Vec<Symbol>> = vec![Vec::new(); 4];
    for i in 0..50 {
        for (holder, result) in holders.iter().zip(results.iter_mut()) {
            result.push(holder.symbol(&format!("n{}", i)));
        }
    }
    assert_eq!(shared.len(), 50);
    for i in 0..50 {
        for result in &results {
            assert_eq!(result[i], results[0][i]);
        }
        assert_eq!(results[0][i].id(), i);
        assert_eq!(shared.name(results[0][i]), Some(format!("n{}", i)));
    }
}

#[test]
fn the_default_register_is_empty() {
    let mut register = SymbolRegister::default();
    assert_eq!(register.len(), 0);
    assert_eq!(register.try_idx("x"), None);
    assert_eq!(register.idx("x"), 0);
    assert_eq!(register.len(), 1);
}

#[test]
fn a_shared_register_keeps_the_names_it_was_shared_with() {
    let mut register = SymbolRegister::new();
    let x = Symbol::new("x", &mut register);
    let y = Symbol::new("y", &mut register);
    let shared = SharedRegister::share(register);
    assert_eq!(shared.len(), 2);
    assert_eq!(shared.symbol("x"), x);
    assert_eq!(shared.symbol("y"), y);
    assert_eq!(shared.name(x), Some(String::from("x")));
    assert_eq!(shared.name(y), Some(String::from("y")));
    let z = shared.symbol("z");
    assert_eq!(z.id(), 2);
    assert!(y < z);
    assert_eq!(shared.symbol("x"), x);
    assert_eq!(shared.name(x), Some(String::from("x")));
    assert_eq!(shared.name(z), Some(String::from("z")));
    assert_eq!(shared.len(), 3);
}

#[test]
fn sharing_an_empty_register_is_a_new_shared_register() {
    let shared = SharedRegister::share(SymbolRegister::new());
    assert_eq!(shared.len(), 0);
    assert_eq!(shared.name(Symbol::default()), None);
    assert_eq!(shared.symbol("first").id(), 0);
    assert_eq!(shared.len(), 1);
}
