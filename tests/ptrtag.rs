use lispcore::list::List;
use lispcore::ptrtag::TaggedPtr;
use lispcore::reader::{Obj, Position, Token};
use lispcore::symcache::{SymCache, Symbol};

#[test]
fn integer_words() {
    assert_eq!(TaggedPtr::from_int(0).value(), 1);
    assert_eq!(TaggedPtr::from_int(5).value(), 11);
    assert_eq!(TaggedPtr::from_int(-1).value(), u64::MAX);
}

#[test]
fn integer_round_trip() {
    let values: [i64; 8] = [0, 1, -1, 42, -42, 1 << 61, (1 << 62) - 1, -(1 << 62)];
    for x in values {
        assert_eq!(TaggedPtr::from_int(x).as_int(), Some(x));
    }
}

#[test]
fn integer_using_all_64_bits_loses_top_bit() {
    assert_eq!(TaggedPtr::from_int(i64::MAX).as_int(), Some(-1));
    assert_eq!(TaggedPtr::from_int(i64::MIN).as_int(), Some(0));
    assert_eq!(TaggedPtr::from_int(1 << 62).as_int(), Some(-(1 << 62)));
    assert_eq!(TaggedPtr::from_int(-(1 << 62) - 1).as_int(), Some((1 << 62) - 1));
}

#[test]
fn symbol_words() {
    assert_eq!(TaggedPtr::from_sym(Symbol::new(0)).value(), 2);
    assert_eq!(TaggedPtr::from_sym(Symbol::new(3)).value(), 3 * 256 + 2);
}

#[test]
fn symbol_round_trip() {
    let mut cache = SymCache::new();
    cache.intern("first");
    let sym = cache.intern("aryadev");
    let back = TaggedPtr::from_sym(sym).as_sym();
    assert_eq!(back, Some(sym));
    assert_eq!(cache.get(back.unwrap()).map(|s| s.as_str()), Some("aryadev"));
    let wide = Symbol::new((1usize << 56) - 1);
    assert_eq!(TaggedPtr::from_sym(wide).as_sym(), Some(wide));
}

#[test]
fn kinds_do_not_mix() {
    assert_eq!(TaggedPtr::from_sym(Symbol::new(7)).as_int(), None);
    assert_eq!(TaggedPtr::from_int(7).as_sym(), None);
    assert_eq!(TaggedPtr::from_int(2).as_sym(), None);
    assert!(TaggedPtr::from_int(3).as_list().is_none());
    assert!(TaggedPtr::from_sym(Symbol::new(0)).as_list().is_none());
    let lst = Box::new(List::new(Vec::new()));
    assert_eq!(TaggedPtr::from_list(lst).as_int(), None);
    let lst = Box::new(List::new(Vec::new()));
    assert_eq!(TaggedPtr::from_list(lst).as_sym(), None);
}

#[test]
fn nil_is_zero_word() {
    let n = TaggedPtr::nil();
    assert_eq!(n.value(), 0);
    assert_eq!(n.as_int(), None);
    assert_eq!(TaggedPtr::nil().as_sym(), None);
    assert!(TaggedPtr::nil().as_list().is_none());
}

#[test]
fn list_round_trip() {
    let p = Position { line: 1, character: 1, byte: 0 };
    let tokens = vec![
        Token { position: p, obj: Obj::Integer(12) },
        Token { position: p, obj: Obj::Symbol("a".to_string()) },
    ];
    let t = TaggedPtr::from_list(Box::new(List::new(tokens)));
    assert_eq!(t.value(), 6);
    let back = t.as_list().unwrap();
    let items = back.tokens();
    assert_eq!(items.len(), 2);
    assert!(matches!(items[0].obj, Obj::Integer(12)));
    assert!(matches!(&items[1].obj, Obj::Symbol(s) if s == "a"));
    assert_eq!(back.into_tokens().len(), 2);
}
