use lalr1::location::Location;
use lalr1::symbol::Associativity;
use lalr1::symbol_table::{Symbol, SymbolError, SymbolTable};
use lalr1::tag::TagOrToken;

fn at(line: usize) -> Location {
    Location::at("spec", 0, line, 1)
}

#[test]
fn duplicate_tag_is_refused() {
    let mut table = SymbolTable::new();
    assert!(table.new_tag("UMINUS", &at(1)).is_ok());
    match table.new_tag("UMINUS", &at(2)) {
        Err(SymbolError::DuplicateTag(other)) => assert_eq!(other.defined_at(), &at(1)),
        _ => panic!("expected a duplicate tag"),
    }
    // the later definition replaces the earlier one
    assert_eq!(table.get_tag("UMINUS").unwrap().defined_at(), &at(2));
    assert!(table.get_tag("OTHER").is_none());
}

#[test]
fn duplicate_tokens_are_refused() {
    let mut table = SymbolTable::new();
    assert!(table.new_literal_token("PLUS", "\"+\"", &at(1)).is_ok());
    assert!(table.new_regex_token("NUMBER", "(\\d+)", &at(2)).is_ok());
    match table.new_literal_token("PLUS", "\"++\"", &at(3)) {
        Err(SymbolError::DuplicateToken(other)) => assert_eq!(other.text(), "\"+\""),
        _ => panic!("expected a duplicate token"),
    }
    match table.new_literal_token("ADD", "\"+\"", &at(4)) {
        Err(SymbolError::DuplicateTokenDefinition(other)) => assert_eq!(other.name(), "PLUS"),
        _ => panic!("expected a duplicate definition"),
    }
    match table.new_regex_token("DIGITS", "(\\d+)", &at(5)) {
        Err(SymbolError::DuplicateTokenDefinition(other)) => assert_eq!(other.name(), "NUMBER"),
        _ => panic!("expected a duplicate definition"),
    }
    assert_eq!(table.get_token("NUMBER").unwrap().text(), "(\\d+)");
    // a refused name still replaces the earlier token, but its text is not recorded
    assert_eq!(table.get_token("PLUS").unwrap().text(), "\"++\"");
    assert!(table.get_literal_token("\"++\"").is_none());
    // a refused text now names the later token
    assert_eq!(table.get_literal_token("\"+\"").unwrap().name(), "ADD");
    assert!(table.get_literal_token("\"-\"").is_none());
}

#[test]
fn non_terminals_and_uses() {
    let mut table = SymbolTable::new();
    table.new_literal_token("PLUS", "\"+\"", &at(1)).unwrap();
    match table.non_terminal_defined_at("PLUS", &at(2)) {
        Err(SymbolError::ConflictsWithToken(token)) => assert_eq!(token.name(), "PLUS"),
        _ => panic!("expected a conflict"),
    }
    let expr = table.symbol_used_at("expr", &at(3));
    assert!(expr.is_non_terminal());
    let defined = table.non_terminal_defined_at("expr", &at(4)).unwrap();
    assert!(!defined.is_undefined());
    assert!(!defined.is_unused());
    assert_eq!(defined.first_definition(), Some(at(4)));
    assert_eq!(defined.used_at(), vec![at(3)]);
    match table.symbol_used_at("PLUS", &at(5)) {
        Symbol::Terminal(token) => assert!(!token.is_unused()),
        Symbol::NonTerminal(_) => panic!("expected the token"),
    }
    assert!(!table.get_token("PLUS").unwrap().is_unused());
    let error = table.error_symbol_used_at(&at(6));
    assert!(error.is_non_terminal());
    assert!(!table.error_non_terminal().is_unused());
    let start = table.start_non_terminal_used_at(&at(7));
    assert!(start.is_start());
    assert!(table.start_non_terminal().is_start());
}

#[test]
fn skip_rules_are_unique() {
    let mut table = SymbolTable::new();
    assert!(table.add_skip_rule("(\\s+)").is_ok());
    match table.add_skip_rule("(\\s+)") {
        Err(SymbolError::DuplicateSkipRule(rule)) => assert_eq!(rule, "(\\s+)"),
        _ => panic!("expected a duplicate skip rule"),
    }
    assert!(table.add_skip_rule("(//[^\\n]*)").is_ok());
}

#[test]
fn precedences_decrease_with_each_declaration() {
    let mut table = SymbolTable::new();
    table.new_literal_token("PLUS", "\"+\"", &at(1)).unwrap();
    table.new_literal_token("TIMES", "\"*\"", &at(2)).unwrap();
    let uminus = table.new_tag("UMINUS", &at(3)).unwrap();
    let plus = TagOrToken::from_token(table.get_token("PLUS").unwrap());
    table.set_precedences(Associativity::Left, &[plus]);
    let times = TagOrToken::from_token(table.get_token("TIMES").unwrap());
    let tag = TagOrToken::from_tag(&uminus);
    table.set_precedences(Associativity::Right, &[times, tag, TagOrToken::Invalid]);
    let plus = table.get_token("PLUS").unwrap();
    let times = table.get_token("TIMES").unwrap();
    assert_eq!(plus.associativity_and_precedence(), (Associativity::Left, u16::MAX));
    assert_eq!(times.associativity_and_precedence(), (Associativity::Right, u16::MAX - 1));
    let uminus = table.get_tag("UMINUS").unwrap();
    assert_eq!(uminus.precedence(), u16::MAX - 1);
    assert_eq!(uminus.associativity(), Associativity::Right);
}

#[test]
fn refusals_are_explained() {
    let mut table = SymbolTable::new();
    table.new_tag("UMINUS", &at(1)).unwrap();
    let error = table.new_tag("UMINUS", &at(2)).unwrap_err();
    assert_eq!(error.message(), "Tag \"UMINUS\" already defined at spec:0:1:1");
    table.new_literal_token("PLUS", "\"+\"", &at(3)).unwrap();
    let error = table.new_literal_token("PLUS", "\"++\"", &at(4)).unwrap_err();
    assert_eq!(error.message(), "Token \"PLUS\" already defined at spec:0:3:1");
    let error = table.new_literal_token("ADD", "\"+\"", &at(5)).unwrap_err();
    assert_eq!(error.message(), "Token \"PLUS\" defined at spec:0:4:1 has same definition");
    let error = table.non_terminal_defined_at("ADD", &at(6)).unwrap_err();
    assert_eq!(error.message(), "NonTerminal \"ADD\" conflicts with token defined at spec:0:5:1.");
    table.add_skip_rule("(\\s+)").unwrap();
    let error = table.add_skip_rule("(\\s+)").unwrap_err();
    assert_eq!(error.message(), "Skip rule \"(\\s+)\" already defined.");
}
