use lalr1::location::Location;
use lalr1::order::Order;
use lalr1::symbol::{AssociativePrecedence, Associativity, SymbolType};
use lalr1::tag::{Tag, TagData, TagOrToken};
use lalr1::terminal::{Token, TokenData, TokenSet};

fn at(line: usize) -> Location {
    Location::at("spec", 0, line, 1)
}

#[test]
fn associativity_defaults_and_names() {
    assert_eq!(Associativity::default(), Associativity::NonAssoc);
    assert_eq!(Associativity::Left.name(), "Left");
    assert_eq!(Associativity::Right.name(), "Right");
    assert_eq!(Associativity::NonAssoc.name(), "NonAssoc");
    let ap = AssociativePrecedence::default();
    assert_eq!(ap.associativity, Associativity::NonAssoc);
    assert_eq!(ap.precedence, 0);
}

#[test]
fn symbol_type_kinds() {
    assert!(SymbolType::Token.is_token());
    assert!(!SymbolType::Tag.is_token());
    assert!(SymbolType::NonTerminal.is_non_terminal());
    assert!(!SymbolType::Token.is_non_terminal());
}

#[test]
fn tag_records_use_and_precedence() {
    let _data = TagData::new("UMINUS", &at(3));
    let mut tag = Tag::new("UMINUS", &at(3));
    assert_eq!(tag.name(), "UMINUS");
    assert_eq!(tag.defined_at(), &at(3));
    assert_eq!(tag.associativity(), Associativity::NonAssoc);
    assert_eq!(tag.precedence(), 0);
    assert!(tag.is_unused());
    tag.add_used_at(&at(9));
    assert!(!tag.is_unused());
    tag.set_associativity(Associativity::Right);
    tag.set_precedence(7);
    assert_eq!(tag.associativity(), Associativity::Right);
    assert_eq!(tag.precedence(), 7);
    match TagOrToken::from_tag(&tag) {
        TagOrToken::Tag(t) => assert_eq!(t.precedence(), 7),
        _ => panic!("expected a tag"),
    }
}

#[test]
fn token_accessors() {
    let _data = TokenData::new("PLUS", "+", &at(1));
    let mut token = Token::new_literal_token("PLUS", "+", &at(1));
    assert_eq!(token.name(), "PLUS");
    assert_eq!(token.text(), "+");
    assert_eq!(token.defined_at(), &at(1));
    assert!(token.is_unused());
    assert!(!token.precedence_has_been_set());
    token.add_used_at(&at(5));
    assert!(!token.is_unused());
    token.set_associativity(Associativity::Left);
    token.set_precedence(3);
    assert_eq!(token.associativity_and_precedence(), (Associativity::Left, 3));
    assert!(token.precedence_has_been_set());
    let end = Token::EndToken;
    assert_eq!(end.associativity_and_precedence(), (Associativity::NonAssoc, 0));
    assert!(!end.is_unused());
    assert!(!end.precedence_has_been_set());
    assert!(matches!(TagOrToken::from_token(&token), TagOrToken::Token(_)));
}

#[test]
fn token_order_is_kind_then_name() {
    let a = Token::new_literal_token("B", "b", &at(1));
    let b = Token::new_regex_token("A", "a+", &at(2));
    let c = Token::new_literal_token("A", "a", &at(3));
    assert_eq!(a.order(&b), Order::Less);
    assert_eq!(c.order(&a), Order::Less);
    assert_eq!(b.order(&Token::EndToken), Order::Less);
    assert_eq!(a.order(&Token::new_literal_token("B", "other", &at(4))), Order::Equal);
    assert_eq!(b.order(&a), Order::Greater);
}

fn names(tokens: &[Token]) -> Vec<String> {
    tokens.iter().map(|t| t.name().to_string()).collect()
}

#[test]
fn token_set_keeps_order_and_uniqueness() {
    let mut set = TokenSet::new();
    assert!(set.insert(&Token::new_literal_token("PLUS", "+", &at(1))));
    assert!(set.insert(&Token::new_literal_token("MINUS", "-", &at(2))));
    assert!(set.insert(&Token::new_regex_token("IDENT", "[a-z]+", &at(3))));
    assert!(!set.insert(&Token::new_literal_token("PLUS", "+", &at(4))));
    assert_eq!(set.len(), 3);
    assert_eq!(names(&set.iter()), vec!["MINUS", "PLUS", "IDENT"]);
    assert!(set.contains(&Token::new_literal_token("MINUS", "", &at(9))));
    assert!(!set.contains(&Token::new_regex_token("MINUS", "", &at(9))));
    assert_eq!(set.formated_as_or_list(), "MINUS | PLUS | IDENT");
    assert_eq!(set.formated_as_macro_call(), "btree_set![MINUS, PLUS, IDENT]");
    assert_eq!(set.to_string(), "TokenSet{MINUS, PLUS, IDENT}");
    assert!(set.remove(&Token::new_literal_token("PLUS", "+", &at(1))));
    assert!(!set.remove(&Token::new_literal_token("PLUS", "+", &at(1))));
    assert_eq!(names(&set.iter()), vec!["MINUS", "IDENT"]);
}

#[test]
fn token_set_algebra() {
    let mut a = TokenSet::new();
    let mut b = TokenSet::new();
    for name in ["A", "B", "C"] {
        a.insert(&Token::new_literal_token(name, name, &at(1)));
    }
    for name in ["B", "C", "D"] {
        b.insert(&Token::new_literal_token(name, name, &at(2)));
    }
    assert_eq!(names(&a.intersection(&b)), vec!["B", "C"]);
    assert_eq!(names(&a.difference(&b)), vec!["A"]);
    assert_eq!(names(&b.difference(&a)), vec!["D"]);
    let union = a.union(&b);
    assert_eq!(names(&union), vec!["A", "B", "C", "D"]);
    assert_eq!(union[1].defined_at(), &at(1));
    a.union_with(&b);
    assert_eq!(a.len(), 4);
    let empty = TokenSet::new();
    assert_eq!(empty.formated_as_or_list(), "");
    assert_eq!(empty.formated_as_macro_call(), "btree_set![]");
}
