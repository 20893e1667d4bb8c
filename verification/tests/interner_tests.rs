use xync::{Interner, StringId};

#[test]
fn predefined_keywords() {
    let interner = Interner::with_predefined_keywords();
    assert_eq!(interner.resolve(StringId(0)), "let");
    assert_eq!(interner.resolve(StringId(1)), "mut");
}

#[test]
fn interning_twice_gives_the_same_id() {
    let mut interner = Interner::with_predefined_keywords();
    let a = interner.intern("alpha");
    let b = interner.intern("alpha");
    assert_eq!(a, b);
    assert_eq!(a, StringId(2));
    assert_eq!(interner.intern("let"), StringId(0));
}

#[test]
fn different_strings_get_different_ids() {
    let mut interner = Interner::default();
    let a = interner.intern("a");
    let b = interner.intern("b");
    assert_ne!(a, b);
    assert_eq!(a, StringId(0));
    assert_eq!(b, StringId(1));
}

#[test]
fn resolve_gives_back_the_interned_string() {
    let mut interner = Interner::default();
    let id = interner.intern("hello");
    let other = interner.intern("world");
    assert_eq!(interner.resolve(id), "hello");
    assert_eq!(interner.resolve(other), "world");
}
