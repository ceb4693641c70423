use lalr1::alapgen::{lexical_analyzer, AANonTerminal, AATerminal};
use lalr1::location::Location;
use lalr1::token_stream::Token;

#[test]
fn terminal_tags_round_trip() {
    for tag in 0..21u32 {
        let terminal = AATerminal::from_tag(tag).unwrap();
        assert_eq!(terminal.tag(), tag);
    }
    assert!(AATerminal::from_tag(21).is_none());
    assert_eq!(AATerminal::ATTR.name(), "\"%attr\"");
    assert_eq!(AATerminal::IDENT.name(), "IDENT");
    assert_eq!(AANonTerminal::ProductionRules.name(), "ProductionRules");
    assert_eq!(AANonTerminal::AAStart.name(), "AAStart");
}

#[test]
fn specification_language_is_tokenized() {
    let analyzer = lexical_analyzer().unwrap();
    let mut tokens = analyzer.token_stream("%token PLUS \"+\" // comment\n%%", "spec");
    let t = tokens.front_advance().unwrap();
    assert_eq!(t, Token::new(AATerminal::TOKEN.tag(), "%token".to_string(), Location::at("spec", 0, 1, 1)));
    let t = tokens.front_advance().unwrap();
    assert_eq!(t.tag(), &AATerminal::IDENT.tag());
    let t = tokens.front_advance().unwrap();
    assert_eq!(t.tag(), &AATerminal::LITERAL.tag());
    assert_eq!(t.lexeme(), "\"+\"");
    let t = tokens.front_advance().unwrap();
    assert_eq!(t.tag(), &AATerminal::NEWSECTION.tag());
    assert_eq!(t.location(), &Location::at("spec", 27, 2, 1));
    assert_eq!(tokens.front().unwrap().tag(), &AATerminal::AAEnd.tag());
}
