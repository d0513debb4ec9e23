use lispcore::symcache::{SymCache, Symbol};

#[test]
fn intern_same_name_same_symbol() {
    let mut cache = SymCache::new();
    let a = cache.intern("alpha");
    let b = cache.intern("beta");
    let a2 = cache.intern("alpha");
    assert_eq!(a, a2);
    assert_ne!(a, b);
    assert_eq!(a.value(), 0);
    assert_eq!(b.value(), 1);
}

#[test]
fn intern_is_byte_exact() {
    let mut cache = SymCache::new();
    let a = cache.intern("Name");
    let b = cache.intern("name");
    let c = cache.intern("name ");
    assert_ne!(a, b);
    assert_ne!(b, c);
    assert_eq!(c.value(), 2);
}

#[test]
fn resolve_gives_interned_name() {
    let mut cache = SymCache::new();
    let s = cache.intern("aryadev");
    let e = cache.intern("");
    assert_eq!(cache.get(s).map(|x| x.as_str()), Some("aryadev"));
    assert_eq!(cache.get(e).map(|x| x.as_str()), Some(""));
}

#[test]
fn resolve_unknown_symbol_is_none() {
    let mut cache = SymCache::new();
    assert!(cache.get(Symbol::new(0)).is_none());
    cache.intern("x");
    assert!(cache.get(Symbol::new(0)).is_some());
    assert!(cache.get(Symbol::new(1)).is_none());
    assert!(cache.get(Symbol::new(usize::MAX)).is_none());
}
