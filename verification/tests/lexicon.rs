use lalr1::error::LexanError;
use lalr1::lexicon::Lexicon;

const IF: u32 = 0;
const WHEN: u32 = 1;
const IDENT: u32 = 2;
const BTEXTL: u32 = 3;
const PRED: u32 = 4;
const LITERAL: u32 = 5;
const ACTION: u32 = 6;
const PREDICATE: u32 = 7;
const CODE: u32 = 8;
const END: u32 = 9;

#[test]
fn lexicon_lexicon_ok() {
    let lexicon = Lexicon::new(
        &[(IF, "if"), (WHEN, "when")],
        &[
            (IDENT, "[a-zA-Z]+[\\w_]*"),
            (BTEXTL, r"&\{(.|[\n\r])*&\}"),
            (PRED, r"\?\{(.|[\n\r])*\?\}"),
            (LITERAL, "(\"\\S+\")"),
            (ACTION, r"(!\{(.|[\n\r])*?!\})"),
            (PREDICATE, r"(\?\((.|[\n\r])*?\?\))"),
            (CODE, r"(%\{(.|[\n\r])*?%\})"),
        ],
        &[r"(/\*(.|[\n\r])*?\*/)", r"(//[^\n\r]*)", r"(\s+)"],
        END,
    );
    assert!(lexicon.is_ok());
}

#[test]
fn lexicon_lexicon_fail() {
    let lexicon = Lexicon::new(
        &[(IF, "if"), (IF, "when")],
        &[
            (IDENT, "[a-zA-Z]+[\\w_]*"),
            (BTEXTL, r"&\{(.|[\n\r])*&\}"),
            (PRED, r"\?\{(.|[\n\r])*\?\}"),
            (LITERAL, "(\"\\S+\")"),
            (ACTION, r"(!\{(.|[\n\r])*?!\})"),
            (PREDICATE, r"(\?\((.|[\n\r])*?\?\))"),
            (CODE, r"(%\{(.|[\n\r])*?%\})"),
        ],
        &[r"(/\*(.|[\n\r])*?\*/)", r"(//[^\n\r]*)", r"(\s+)"],
        END,
    );
    if let Err(err) = lexicon {
        assert_eq!(err, LexanError::DuplicateHandle(IF));
    } else {
        assert!(false)
    }
    let lexicon = Lexicon::new(
        &[(IF, "if"), (WHEN, "when")],
        &[
            (ACTION, "[a-zA-Z]+[\\w_]*"),
            (BTEXTL, r"&\{(.|[\n\r])*&\}"),
            (PRED, r"\?\{(.|[\n\r])*\?\}"),
            (LITERAL, "(\"\\S+\")"),
            (ACTION, r"(!\{(.|[\n\r])*?!\})"),
            (PREDICATE, r"(\?\((.|[\n\r])*?\?\))"),
            (CODE, r"(%\{(.|[\n\r])*?%\})"),
        ],
        &[r"(/\*(.|[\n\r])*?\*/)", r"(//[^\n\r]*)", r"(\s+)"],
        END,
    );
    if let Err(err) = lexicon {
        assert_eq!(err, LexanError::DuplicateHandle(ACTION));
    } else {
        assert!(false)
    }
    let lexicon = Lexicon::new(
        &[(IF, "if"), (WHEN, "when")],
        &[
            (IDENT, "[a-zA-Z]+[\\w_]*"),
            (BTEXTL, r"&\{(.|[\n\r])*&\}"),
            (PRED, r"\?\{(.|[\n\r])*\?\}"),
            (LITERAL, "(\"\\S+\")"),
            (WHEN, r"(!\{(.|[\n\r])*?!\})"),
            (PREDICATE, r"(\?\((.|[\n\r])*?\?\))"),
            (CODE, r"(%\{(.|[\n\r])*?%\})"),
        ],
        &[r"(/\*(.|[\n\r])*?\*/)", r"(//[^\n\r]*)", r"(\s+)"],
        END,
    );
    if let Err(err) = lexicon {
        assert_eq!(err, LexanError::DuplicateHandle(WHEN));
    } else {
        assert!(false)
    }
    let lexicon = Lexicon::new(
        &[(IF, "if"), (WHEN, "when")],
        &[
            (IDENT, "[a-zA-Z]+[\\w_]*"),
            (BTEXTL, r"&\{(.|[\n\r])*&\}"),
            (PRED, r"\?\{(.|[\n\r])*\?\}"),
            (LITERAL, "(\"\\S+\")"),
            (ACTION, r"(!\{(.|[\n\r])*?!\})"),
            (PREDICATE, r"(\?\((.|[\n\r])*?\?\))"),
            (CODE, r"(%\{(.|[\n\r])*?%\})"),
        ],
        &[r"(/\*(.|[\n\r])*?\*/)", r"(//[^\n\r]*)", r"(\s+)"],
        ACTION,
    );
    if let Err(err) = lexicon {
        assert_eq!(err, LexanError::DuplicateHandle(ACTION));
    } else {
        assert!(false)
    }
    let lexicon = Lexicon::new(
        &[(IF, "if"), (WHEN, "if")],
        &[
            (IDENT, "[a-zA-Z]+[\\w_]*"),
            (BTEXTL, r"&\{(.|[\n\r])*&\}"),
            (PRED, r"\?\{(.|[\n\r])*\?\}"),
            (LITERAL, "(\"\\S+\")"),
            (ACTION, r"(!\{(.|[\n\r])*?!\})"),
            (PREDICATE, r"(\?\((.|[\n\r])*?\?\))"),
            (CODE, r"(%\{(.|[\n\r])*?%\})"),
        ],
        &[r"(/\*(.|[\n\r])*?\*/)", r"(//[^\n\r]*)", r"(\s+)"],
        END,
    );
    if let Err(err) = lexicon {
        assert_eq!(err, LexanError::DuplicatePattern("if".to_string()));
    } else {
        assert!(false)
    }
    let lexicon = Lexicon::new(
        &[(IF, "if"), (WHEN, "when")],
        &[
            (IDENT, "[a-zA-Z]+[\\w_]*"),
            (BTEXTL, r"&\{(.|[\n\r])*&\}"),
            (PRED, r"\?\{(.|[\n\r])*\?\}"),
            (LITERAL, "when"),
            (ACTION, r"(!\{(.|[\n\r])*?!\})"),
            (PREDICATE, r"(\?\((.|[\n\r])*?\?\))"),
            (CODE, r"(%\{(.|[\n\r])*?%\})"),
        ],
        &[r"(/\*(.|[\n\r])*?\*/)", r"(//[^\n\r]*)", r"(\s+)"],
        END,
    );
    if let Err(err) = lexicon {
        assert_eq!(err, LexanError::DuplicatePattern("when".to_string()));
    } else {
        assert!(false)
    }
    let lexicon = Lexicon::new(
        &[(IF, "if"), (WHEN, "when")],
        &[
            (IDENT, "(\"\\S+\")"),
            (BTEXTL, r"&\{(.|[\n\r])*&\}"),
            (PRED, r"\?\{(.|[\n\r])*\?\}"),
            (LITERAL, "(\"\\S+\")"),
            (ACTION, r"(!\{(.|[\n\r])*?!\})"),
            (PREDICATE, r"(\?\((.|[\n\r])*?\?\))"),
            (CODE, r"(%\{(.|[\n\r])*?%\})"),
        ],
        &[r"(/\*(.|[\n\r])*?\*/)", r"(//[^\n\r]*)", r"(\s+)"],
        END,
    );
    if let Err(err) = lexicon {
        assert_eq!(err, LexanError::DuplicatePattern("(\"\\S+\")".to_string()));
    } else {
        assert!(false)
    }
    let lexicon = Lexicon::new(
        &[(IF, "if"), (WHEN, "when")],
        &[
            (IDENT, "[a-zA-Z]+[\\w_]*"),
            (BTEXTL, r"&\{(.|[\n\r])*&\}"),
            (PRED, r"\?\{(.|[\n\r])*\?\}"),
            (LITERAL, "(\"\\S+\")"),
            (ACTION, r"(!\{(.|[\n\r])*?!\})"),
            (PREDICATE, r"(\?\((.|[\n\r])*?\?\))"),
            (CODE, r"(%\{(.|[\n\r])*?%\})"),
        ],
        &[r"(/\*(.|[\n\r])*?\*/)", r"(//[^\n\r]*)", "(\"\\S+\")"],
        END,
    );
    if let Err(err) = lexicon {
        assert_eq!(err, LexanError::DuplicatePattern("(\"\\S+\")".to_string()));
    } else {
        assert!(false)
    }
}

#[test]
fn lexicon_empty_pattern_is_refused() {
    let lexicon = Lexicon::new(&[(IF, "")], &[], &[], END);
    assert_eq!(lexicon.err(), Some(LexanError::EmptyPattern(Some(IF))));
    let lexicon = Lexicon::new(&[(IF, "if")], &[], &[""], END);
    assert_eq!(lexicon.err(), Some(LexanError::EmptyPattern(None)));
}

#[test]
fn lexicon_bad_regex_is_refused() {
    let lexicon = Lexicon::new(&[(IF, "if")], &[(IDENT, "([a-z]")], &[], END);
    assert!(matches!(lexicon.err(), Some(LexanError::RegexError(_))));
}
