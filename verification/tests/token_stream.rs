use std::sync::Arc;

use lalr1::analyzer::LexicalAnalyzer;
use lalr1::lexicon::Lexicon;
use lalr1::location::Location;
use lalr1::token_stream::{Token, TokenStream};

const IF: u32 = 0;
const WHEN: u32 = 1;
const IDENT: u32 = 2;
const END: u32 = 3;

fn lexicon() -> Arc<Lexicon> {
    let lexicon = Lexicon::new(
        &[(IF, "if"), (WHEN, "when")],
        &[(IDENT, "[a-zA-Z]+[\\w_]*")],
        &[r"(/\*(.|[\n\r])*?\*/)", r"(//[^\n\r]*)", r"(\s+)"],
        END,
    );
    Arc::new(lexicon.unwrap())
}

#[test]
fn token_stream_token_stream_basics() {
    let lexicon = lexicon();
    let text = "      ";
    let label = "label";
    let mut token_stream = TokenStream::new(&lexicon, text, label);
    assert!(token_stream.is_empty());
    assert!(token_stream.front().is_err());
    let text = " if nothing happens 9 ";
    let label = "another";
    token_stream.inject(text, label);
    assert!(!token_stream.is_empty());
    let token = Token::new(IF, "if".to_string(), Location::at("another", 1, 1, 2));
    assert_eq!((token_stream.front().clone()).unwrap(), token);
    assert_eq!((token_stream.front().clone()).unwrap(), token);
    token_stream.advance();
    let token = Token::new(IDENT, "nothing".to_string(), Location::at("another", 4, 1, 5));
    assert_eq!((token_stream.front().clone()).unwrap(), token);
    let text = "just";
    let label = "more";
    token_stream.inject(text, label);
    let token = Token::new(IDENT, "just".to_string(), Location::at("more", 0, 1, 1));
    assert_eq!((token_stream.front().clone()).unwrap(), token);
    token_stream.advance();
    let token = Token::new(IDENT, "nothing".to_string(), Location::at("another", 4, 1, 5));
    assert_eq!((token_stream.front().clone()).unwrap(), token);
    token_stream.advance();
    assert!(token_stream.front().is_ok());
    token_stream.advance();
    assert!(token_stream.front().is_err());
    token_stream.advance();
    let token = Token::new(END, "".to_string(), Location::at("another", 22, 1, 23));
    assert_eq!(token_stream.front().unwrap(), token);
    assert!(token_stream.advance_front().is_err());
}

#[test]
fn analyzer_token_stream_basics() {
    let analyzer = LexicalAnalyzer::new(
        &[(IF, "if"), (WHEN, "when")],
        &[(IDENT, "[a-zA-Z]+[\\w_]*")],
        &[r"(/\*(.|[\n\r])*?\*/)", r"(//[^\n\r]*)", r"(\s+)"],
        END,
    )
    .unwrap();
    let text = "      ";
    let label = "label";
    let mut token_stream = analyzer.token_stream(text, label);
    assert!(token_stream.is_empty());
    assert!(token_stream.front().is_err());
    let text = " if nothing happens 9 ";
    let label = "another";
    token_stream.inject(text, label);
    assert!(!token_stream.is_empty());
    let token = Token::new(IF, "if".to_string(), Location::at("another", 1, 1, 2));
    assert_eq!((token_stream.front().clone()).unwrap(), token.clone());
    assert_eq!((token_stream.front().clone()).unwrap(), token.clone());
    token_stream.advance();
    let token = Token::new(IDENT, "nothing".to_string(), Location::at("another", 4, 1, 5));
    assert_eq!((token_stream.front().clone()).unwrap(), token.clone());
    let text = "just";
    let label = "more";
    token_stream.inject(text, label);
    let token = Token::new(IDENT, "just".to_string(), Location::at("more", 0, 1, 1));
    assert_eq!((token_stream.front().clone()).unwrap(), token.clone());
    token_stream.advance();
    let token = Token::new(IDENT, "nothing".to_string(), Location::at("another", 4, 1, 5));
    assert_eq!((token_stream.front().clone()).unwrap(), token.clone());
    token_stream.advance();
    assert!(token_stream.front().clone().is_ok());
    token_stream.advance();
    assert!(token_stream.front().clone().is_err());
    token_stream.advance();
    let token = Token::new(END, "".to_string(), Location::at("another", 22, 1, 23));
    assert_eq!(token_stream.front().clone().unwrap(), token);
    assert!(token_stream.advance_front().is_err());
}

#[test]
fn token_stream_comments_are_skipped() {
    let lexicon = lexicon();
    let mut token_stream = TokenStream::new(&lexicon, "/* c */when // x\nwhen", "l");
    let token = token_stream.front_advance().unwrap();
    assert_eq!(token, Token::new(WHEN, "when".to_string(), Location::at("l", 7, 1, 8)));
    let token = token_stream.front_advance().unwrap();
    assert_eq!(token, Token::new(WHEN, "when".to_string(), Location::at("l", 17, 2, 1)));
    assert_eq!(token_stream.front().unwrap().tag(), &END);
    assert!(token_stream.is_empty());
}
