use mdtemplate::symbol::{get_symbol_from_variable_value, Symbol, SymbolKind};

fn value(text: &str) -> Option<Symbol> {
    get_symbol_from_variable_value(text.to_string())
}

#[test]
fn quoted_text_is_a_string() {
    assert_eq!(value("'abc'"), Some(Symbol::String("abc".to_string())));
    assert_eq!(value("''a''"), Some(Symbol::String("a".to_string())));
    assert_eq!(value("'a'b'"), Some(Symbol::String("a'b".to_string())));
    assert_eq!(value("'"), Some(Symbol::String(String::new())));
    assert_eq!(value("'[1, 2]'"), Some(Symbol::String("[1, 2]".to_string())));
    assert_eq!(value("' padded "), Some(Symbol::String(" padded ".to_string())));
}

#[test]
fn booleans_are_capitalised() {
    assert_eq!(value("True"), Some(Symbol::Boolean(true)));
    assert_eq!(value("False"), Some(Symbol::Boolean(false)));
    assert_eq!(value("true"), None);
    assert_eq!(value(" True"), None);
}

#[test]
fn integers_are_signed_and_bounded() {
    assert_eq!(value("0"), Some(Symbol::Integer(0)));
    assert_eq!(value("42"), Some(Symbol::Integer(42)));
    assert_eq!(value("-7"), Some(Symbol::Integer(-7)));
    assert_eq!(value("+7"), Some(Symbol::Integer(7)));
    assert_eq!(value("007"), Some(Symbol::Integer(7)));
    assert_eq!(value("-0"), Some(Symbol::Integer(0)));
    assert_eq!(value("2147483647"), Some(Symbol::Integer(i32::MAX)));
    assert_eq!(value("-2147483648"), Some(Symbol::Integer(i32::MIN)));
    assert_eq!(value("2147483648"), None);
    assert_eq!(value("-2147483649"), None);
    assert_eq!(value("99999999999999999999999999"), None);
    assert_eq!(value(""), None);
    assert_eq!(value("-"), None);
    assert_eq!(value("+"), None);
    assert_eq!(value("1 "), None);
    assert_eq!(value("--1"), None);
    assert_eq!(value("1a"), None);
    assert_eq!(value("abc"), None);
}

#[test]
fn integers_agree_with_std() {
    for text in ["0", "12", "-12", "+12", "2147483647", "2147483648", "-2147483648", "", "-", "+-1", "1_0", "٣"] {
        let expected = text.parse::<i32>().ok().map(Symbol::Integer);
        assert_eq!(value(text), expected, "reading {:?}", text);
    }
}

#[test]
fn bracketed_text_is_a_list() {
    assert_eq!(
        value("[1, 2, 3]"),
        Some(Symbol::List(vec![Symbol::Integer(1), Symbol::Integer(2), Symbol::Integer(3)]))
    );
    assert_eq!(
        value("[1, 'two', True, -4]"),
        Some(Symbol::List(vec![
            Symbol::Integer(1),
            Symbol::String("two".to_string()),
            Symbol::Boolean(true),
            Symbol::Integer(-4),
        ]))
    );
    assert_eq!(value("[]"), Some(Symbol::List(vec![])));
    assert_eq!(value("["), Some(Symbol::List(vec![])));
    assert_eq!(value("[ ]"), Some(Symbol::List(vec![])));
}

#[test]
fn empty_list_items_are_dropped() {
    assert_eq!(value("[1,,2, ,]"), Some(Symbol::List(vec![Symbol::Integer(1), Symbol::Integer(2)])));
    assert_eq!(value("[,]"), Some(Symbol::List(vec![])));
}

#[test]
fn nested_brackets_are_flattened() {
    assert_eq!(
        value("[[1, 2], [3]]"),
        Some(Symbol::List(vec![Symbol::Integer(1), Symbol::Integer(2), Symbol::Integer(3)]))
    );
    assert_eq!(value("1, [2"), Some(Symbol::List(vec![Symbol::Integer(1), Symbol::Integer(2)])));
}

#[test]
fn one_bad_item_spoils_the_list() {
    assert_eq!(value("[1, x, 3]"), None);
    assert_eq!(value("[1 2]"), None);
    assert_eq!(value("['a, b']"), None);
}

#[test]
fn list_items_are_trimmed_with_unicode_whitespace() {
    assert_eq!(value("[\u{a0}1\u{2003},\t2\n]"), Some(Symbol::List(vec![Symbol::Integer(1), Symbol::Integer(2)])));
}

#[test]
fn text_of_values() {
    assert_eq!(Symbol::String("a b".to_string()).to_string(), Some("a b".to_string()));
    assert_eq!(Symbol::Integer(0).to_string(), Some("0".to_string()));
    assert_eq!(Symbol::Integer(7).to_string(), Some("7".to_string()));
    assert_eq!(Symbol::Integer(10).to_string(), Some("10".to_string()));
    assert_eq!(Symbol::Integer(-305).to_string(), Some("-305".to_string()));
    assert_eq!(Symbol::Integer(i32::MAX).to_string(), Some("2147483647".to_string()));
    assert_eq!(Symbol::Integer(i32::MIN).to_string(), Some("-2147483648".to_string()));
    assert_eq!(Symbol::Boolean(true).to_string(), Some("true".to_string()));
    assert_eq!(Symbol::Boolean(false).to_string(), Some("false".to_string()));
}

#[test]
fn text_of_lists_is_joined() {
    let list = Symbol::List(vec![
        Symbol::Integer(1),
        Symbol::String("a".to_string()),
        Symbol::Boolean(true),
        Symbol::List(vec![Symbol::Integer(2), Symbol::Integer(3)]),
    ]);
    assert_eq!(list.to_string(), Some("1, a, true, 2, 3".to_string()));
    assert_eq!(Symbol::List(vec![]).to_string(), Some(String::new()));
    assert_eq!(Symbol::List(vec![Symbol::Integer(5)]).to_string(), Some("5".to_string()));
    let blanks = Symbol::List(vec![Symbol::String(String::new()), Symbol::String(String::new())]);
    assert_eq!(blanks.to_string(), Some(", ".to_string()));
}

#[test]
fn structs_have_no_text() {
    let s = Symbol::Struct(vec![("a".to_string(), Symbol::Integer(1))]);
    assert_eq!(s.to_string(), None);
    assert_eq!(Symbol::List(vec![Symbol::Integer(1), s]).to_string(), None);
}

#[test]
fn from_makes_a_string() {
    assert_eq!(Symbol::from("x y".to_string()), Symbol::String("x y".to_string()));
}

#[test]
fn clone_is_equal_and_apart() {
    let first = Symbol::List(vec![
        Symbol::String("a".to_string()),
        Symbol::Struct(vec![("k".to_string(), Symbol::List(vec![Symbol::Boolean(false)]))]),
        Symbol::Integer(-1),
    ]);
    let mut copy = first.clone();
    assert_eq!(copy, first);
    if let Symbol::List(items) = &mut copy {
        items.push(Symbol::Integer(2));
    }
    assert_ne!(copy, first);
}

#[test]
fn kinds_and_their_names() {
    assert_eq!(Symbol::String(String::new()).kind(), SymbolKind::String);
    assert_eq!(Symbol::Integer(1).kind(), SymbolKind::Integer);
    assert_eq!(Symbol::Boolean(true).kind(), SymbolKind::Boolean);
    assert_eq!(Symbol::Struct(vec![]).kind(), SymbolKind::Struct);
    assert_eq!(Symbol::List(vec![]).kind(), SymbolKind::List);
    assert_eq!(SymbolKind::String.name(), "String");
    assert_eq!(SymbolKind::Integer.name(), "Integer");
    assert_eq!(SymbolKind::Boolean.name(), "Boolean");
    assert_eq!(SymbolKind::Struct.name(), "Struct");
    assert_eq!(SymbolKind::List.name(), "List");
}
