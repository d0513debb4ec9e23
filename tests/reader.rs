use lispcore::reader::{Obj, Reader, Token};

fn chars(s: &str) -> Vec<char> {
    s.chars().collect()
}

fn symbol_of(t: &Token) -> &str {
    match &t.obj {
        Obj::Symbol(s) => s.as_str(),
        _ => panic!("not a symbol"),
    }
}

#[test]
fn list_with_comment() {
    let buf = chars("(a b 12 ; comment\n c)");
    let (tok, rest) = Reader::new("src", &buf).parse_token();
    let tok = tok.unwrap();
    assert_eq!(tok.position.byte, 0);
    let items = match tok.obj {
        Obj::List(v) => v,
        _ => panic!("not a list"),
    };
    assert_eq!(items.len(), 4);
    assert_eq!(symbol_of(&items[0]), "a");
    assert_eq!(symbol_of(&items[1]), "b");
    assert!(matches!(items[2].obj, Obj::Integer(12)));
    assert_eq!(symbol_of(&items[3]), "c");
    assert_eq!((items[3].position.line, items[3].position.character), (2, 2));
    assert!(rest.at_end());
}

#[test]
fn unterminated_list_is_malformed() {
    let buf = chars("(a b");
    let (tok, rest) = Reader::new("src", &buf).parse_token();
    assert!(tok.is_none());
    assert!(rest.at_end());
    assert_eq!(rest.position.byte, 4);
}

#[test]
fn empty_lists() {
    let buf = chars("( )");
    let (tok, rest) = Reader::new("src", &buf).parse_token();
    assert!(matches!(tok.unwrap().obj, Obj::List(v) if v.is_empty()));
    assert!(rest.at_end());
    let buf = chars("()");
    let (tok, _) = Reader::new("src", &buf).parse_token();
    assert!(matches!(tok.unwrap().obj, Obj::List(v) if v.is_empty()));
}

#[test]
fn second_line_position() {
    let buf = chars("ab\ncd");
    let (first, r) = Reader::new("src", &buf).parse_token();
    assert_eq!(symbol_of(&first.unwrap()), "ab");
    let (second, r) = r.parse_token();
    let second = second.unwrap();
    assert_eq!(symbol_of(&second), "cd");
    assert_eq!(second.position.line, 2);
    assert_eq!(second.position.character, 1);
    assert_eq!(second.position.byte, 3);
    assert!(r.at_end());
}

#[test]
fn nested_lists() {
    let buf = chars("((a) b) c");
    let (tok, r) = Reader::new("src", &buf).parse_token();
    let items = match tok.unwrap().obj {
        Obj::List(v) => v,
        _ => panic!("not a list"),
    };
    assert_eq!(items.len(), 2);
    assert!(matches!(&items[0].obj, Obj::List(v) if v.len() == 1));
    assert_eq!(items[0].position.character, 2);
    assert_eq!(symbol_of(&items[1]), "b");
    let (c, r) = r.parse_token();
    assert_eq!(symbol_of(&c.unwrap()), "c");
    let (none, r) = r.parse_token();
    assert!(none.is_none());
    assert!(r.at_end());
}

#[test]
fn integer_limits() {
    let buf = chars("9223372036854775807");
    let (tok, r) = Reader::new("src", &buf).parse_token();
    assert!(matches!(tok.unwrap().obj, Obj::Integer(i64::MAX)));
    assert!(r.at_end());
    let buf = chars("  9223372036854775808 x");
    let (tok, r) = Reader::new("src", &buf).parse_token();
    assert!(tok.is_none());
    assert_eq!(r.position.byte, 2);
    assert_eq!(r.position.character, 3);
}

#[test]
fn integer_then_symbol() {
    let buf = chars("007abc");
    let (tok, r) = Reader::new("src", &buf).parse_token();
    assert!(matches!(tok.unwrap().obj, Obj::Integer(7)));
    let (tok, r) = r.parse_token();
    assert_eq!(symbol_of(&tok.unwrap()), "abc");
    assert!(r.at_end());
}

#[test]
fn symbol_characters() {
    let buf = chars("λx-1+;q$y");
    let (tok, r) = Reader::new("src", &buf).parse_token();
    assert_eq!(symbol_of(&tok.unwrap()), "λx-1+;q");
    assert_eq!(r.position.byte, 7);
    let (tok, r) = r.parse_token();
    assert!(tok.is_none());
    assert_eq!(r.position.byte, 7);
}

#[test]
fn stray_close_is_malformed() {
    let buf = chars(" )");
    let (tok, r) = Reader::new("src", &buf).parse_token();
    assert!(tok.is_none());
    assert_eq!(r.position.byte, 1);
    assert!(!r.at_end());
}

#[test]
fn blank_input_has_no_token() {
    let buf = chars("");
    let (tok, r) = Reader::new("src", &buf).parse_token();
    assert!(tok.is_none());
    assert!(r.at_end());
    let buf = chars(" \t; only a comment\r\n  ; another");
    let (tok, r) = Reader::new("src", &buf).parse_token();
    assert!(tok.is_none());
    assert!(r.at_end());
    assert_eq!(r.position.line, 3);
}

#[test]
fn carriage_return_counts_as_line_break() {
    let buf = chars("a\r\nb");
    let (_, r) = Reader::new("src", &buf).parse_token();
    let (b, _) = r.parse_token();
    let b = b.unwrap();
    assert_eq!((b.position.line, b.position.character, b.position.byte), (3, 1, 3));
}

#[test]
fn reader_keeps_name() {
    let buf = chars("x");
    let r = Reader::new("main.lisp", &buf);
    assert_eq!(r.name, "main.lisp");
    assert_eq!((r.position.line, r.position.character, r.position.byte), (1, 1, 0));
    let (_, r) = r.parse_token();
    assert_eq!(r.name, "main.lisp");
}

#[test]
fn only_blank_left_tells_clean_end_from_malformed() {
    let buf = chars("x ; done\n  ");
    let r = Reader::new("src", &buf);
    assert!(!r.only_blank_left());
    let (_, r) = r.parse_token();
    assert!(r.only_blank_left());
    assert!(!r.at_end());
    let buf = chars("(a b");
    let r = Reader::new("src", &buf);
    let (tok, r) = r.parse_token();
    assert!(tok.is_none());
    assert!(r.at_end());
    let buf = chars("$");
    assert!(!Reader::new("src", &buf).only_blank_left());
}
