//! The symbols of the language in which grammars are specified, and the
//! lexical analyser for it.

use vstd::prelude::*;

use vstd::string::StrSliceExecFns;

use crate::analyzer::LexicalAnalyzer;
use crate::error::LexanError;
use crate::lexicon::{lexicon_error, lexicon_ok, LexiconView};
use crate::literal_matcher::{lexeme_bytes, pattern_map};
use crate::regex_matcher::anchored;
use crate::ordered_set::OrderedSet;
use crate::parser::Action;

verus! {

/// The terminal symbols of the grammar specification language.
#[derive(Debug, Clone, Copy, PartialEq, Eq, PartialOrd, Ord, Structural)]
pub enum AATerminal {
    AAEnd,
    REGEX,
    LITERAL,
    ATTR,
    TARGET,
    TOKEN,
    LEFT,
    RIGHT,
    NONASSOC,
    PRECEDENCE,
    SKIP,
    ERROR,
    INJECT,
    NEWSECTION,
    COLON,
    VBAR,
    DOT,
    IDENT,
    PREDICATE,
    ACTION,
    RUSTCODE,
}

/// The number that stands for a terminal in the lexicon and the parse tables.
pub open spec fn terminal_tag(t: AATerminal) -> u32 {
    match t {
        AATerminal::AAEnd => 0,
        AATerminal::REGEX => 1,
        AATerminal::LITERAL => 2,
        AATerminal::ATTR => 3,
        AATerminal::TARGET => 4,
        AATerminal::TOKEN => 5,
        AATerminal::LEFT => 6,
        AATerminal::RIGHT => 7,
        AATerminal::NONASSOC => 8,
        AATerminal::PRECEDENCE => 9,
        AATerminal::SKIP => 10,
        AATerminal::ERROR => 11,
        AATerminal::INJECT => 12,
        AATerminal::NEWSECTION => 13,
        AATerminal::COLON => 14,
        AATerminal::VBAR => 15,
        AATerminal::DOT => 16,
        AATerminal::IDENT => 17,
        AATerminal::PREDICATE => 18,
        AATerminal::ACTION => 19,
        AATerminal::RUSTCODE => 20,
    }
}

/// How a terminal is written in messages.
pub open spec fn terminal_name(t: AATerminal) -> Seq<char> {
    match t {
        AATerminal::AAEnd => "AAEnd"@,
        AATerminal::REGEX => "REGEX"@,
        AATerminal::LITERAL => "LITERAL"@,
        AATerminal::ATTR => "\"%attr\""@,
        AATerminal::TARGET => "\"%target\""@,
        AATerminal::TOKEN => "\"%token\""@,
        AATerminal::LEFT => "\"%left\""@,
        AATerminal::RIGHT => "\"%right\""@,
        AATerminal::NONASSOC => "\"%nonassoc\""@,
        AATerminal::PRECEDENCE => "\"%prec\""@,
        AATerminal::SKIP => "\"%skip\""@,
        AATerminal::ERROR => "\"%error\""@,
        AATerminal::INJECT => "\"%inject\""@,
        AATerminal::NEWSECTION => "\"%%\""@,
        AATerminal::COLON => "\":\""@,
        AATerminal::VBAR => "\"|\""@,
        AATerminal::DOT => "\".\""@,
        AATerminal::IDENT => "IDENT"@,
        AATerminal::PREDICATE => "PREDICATE"@,
        AATerminal::ACTION => "ACTION"@,
        AATerminal::RUSTCODE => "RUSTCODE"@,
    }
}

impl AATerminal {
    /// The number that stands for this terminal.
    pub fn tag(&self) -> (r: u32)
        ensures
            r == terminal_tag(*self),
    {
        match self {
            AATerminal::AAEnd => 0,
            AATerminal::REGEX => 1,
            AATerminal::LITERAL => 2,
            AATerminal::ATTR => 3,
            AATerminal::TARGET => 4,
            AATerminal::TOKEN => 5,
            AATerminal::LEFT => 6,
            AATerminal::RIGHT => 7,
            AATerminal::NONASSOC => 8,
            AATerminal::PRECEDENCE => 9,
            AATerminal::SKIP => 10,
            AATerminal::ERROR => 11,
            AATerminal::INJECT => 12,
            AATerminal::NEWSECTION => 13,
            AATerminal::COLON => 14,
            AATerminal::VBAR => 15,
            AATerminal::DOT => 16,
            AATerminal::IDENT => 17,
            AATerminal::PREDICATE => 18,
            AATerminal::ACTION => 19,
            AATerminal::RUSTCODE => 20,
        }
    }

    /// The terminal that `tag` stands for, if any.
    pub fn from_tag(tag: u32) -> (r: Option<AATerminal>)
        ensures
            r matches Some(t) ==> terminal_tag(t) == tag,
            r is None ==> forall|t: AATerminal| terminal_tag(t) != tag,
    {
        match tag {
            0 => Some(AATerminal::AAEnd),
            1 => Some(AATerminal::REGEX),
            2 => Some(AATerminal::LITERAL),
            3 => Some(AATerminal::ATTR),
            4 => Some(AATerminal::TARGET),
            5 => Some(AATerminal::TOKEN),
            6 => Some(AATerminal::LEFT),
            7 => Some(AATerminal::RIGHT),
            8 => Some(AATerminal::NONASSOC),
            9 => Some(AATerminal::PRECEDENCE),
            10 => Some(AATerminal::SKIP),
            11 => Some(AATerminal::ERROR),
            12 => Some(AATerminal::INJECT),
            13 => Some(AATerminal::NEWSECTION),
            14 => Some(AATerminal::COLON),
            15 => Some(AATerminal::VBAR),
            16 => Some(AATerminal::DOT),
            17 => Some(AATerminal::IDENT),
            18 => Some(AATerminal::PREDICATE),
            19 => Some(AATerminal::ACTION),
            20 => Some(AATerminal::RUSTCODE),
            _ => None,
        }
    }

    /// How this terminal is written in messages.
    pub fn name(&self) -> (r: &'static str)
        ensures
            r@ == terminal_name(*self),
    {
        match self {
            AATerminal::AAEnd => "AAEnd",
            AATerminal::REGEX => "REGEX",
            AATerminal::LITERAL => "LITERAL",
            AATerminal::ATTR => "\"%attr\"",
            AATerminal::TARGET => "\"%target\"",
            AATerminal::TOKEN => "\"%token\"",
            AATerminal::LEFT => "\"%left\"",
            AATerminal::RIGHT => "\"%right\"",
            AATerminal::NONASSOC => "\"%nonassoc\"",
            AATerminal::PRECEDENCE => "\"%prec\"",
            AATerminal::SKIP => "\"%skip\"",
            AATerminal::ERROR => "\"%error\"",
            AATerminal::INJECT => "\"%inject\"",
            AATerminal::NEWSECTION => "\"%%\"",
            AATerminal::COLON => "\":\"",
            AATerminal::VBAR => "\"|\"",
            AATerminal::DOT => "\".\"",
            AATerminal::IDENT => "IDENT",
            AATerminal::PREDICATE => "PREDICATE",
            AATerminal::ACTION => "ACTION",
            AATerminal::RUSTCODE => "RUSTCODE",
        }
    }
}

/// The non terminal symbols of the grammar specification language.
#[derive(Debug, Clone, Copy, PartialEq, Eq, PartialOrd, Ord, Structural)]
pub enum AANonTerminal {
    AAStart,
    AASyntaxError,
    AALexicalError,
    AASemanticError,
    Specification,
    Preamble,
    Configuration,
    Definitions,
    ProductionRules,
    OptionalInjection,
    Injection,
    InjectionHead,
    AttributeType,
    TargetType,
    TokenDefinitions,
    SkipDefinitions,
    PrecedenceDefinitions,
    TokenDefinition,
    NewTokenName,
    Pattern,
    SkipDefinition,
    PrecedenceDefinition,
    TagList,
    Tag,
    ProductionGroup,
    ProductionGroupHead,
    ProductionTailList,
    ProductionTail,
    Action,
    Predicate,
    SymbolList,
    TaggedPrecedence,
    Symbol,
}

/// How a non terminal is written in messages.
pub open spec fn non_terminal_name(n: AANonTerminal) -> Seq<char> {
    match n {
        AANonTerminal::AAStart => "AAStart"@,
        AANonTerminal::AASyntaxError => "AASyntaxError"@,
        AANonTerminal::AALexicalError => "AALexicalError"@,
        AANonTerminal::AASemanticError => "AASemanticError"@,
        AANonTerminal::Specification => "Specification"@,
        AANonTerminal::Preamble => "Preamble"@,
        AANonTerminal::Configuration => "Configuration"@,
        AANonTerminal::Definitions => "Definitions"@,
        AANonTerminal::ProductionRules => "ProductionRules"@,
        AANonTerminal::OptionalInjection => "OptionalInjection"@,
        AANonTerminal::Injection => "Injection"@,
        AANonTerminal::InjectionHead => "InjectionHead"@,
        AANonTerminal::AttributeType => "AttributeType"@,
        AANonTerminal::TargetType => "TargetType"@,
        AANonTerminal::TokenDefinitions => "TokenDefinitions"@,
        AANonTerminal::SkipDefinitions => "SkipDefinitions"@,
        AANonTerminal::PrecedenceDefinitions => "PrecedenceDefinitions"@,
        AANonTerminal::TokenDefinition => "TokenDefinition"@,
        AANonTerminal::NewTokenName => "NewTokenName"@,
        AANonTerminal::Pattern => "Pattern"@,
        AANonTerminal::SkipDefinition => "SkipDefinition"@,
        AANonTerminal::PrecedenceDefinition => "PrecedenceDefinition"@,
        AANonTerminal::TagList => "TagList"@,
        AANonTerminal::Tag => "Tag"@,
        AANonTerminal::ProductionGroup => "ProductionGroup"@,
        AANonTerminal::ProductionGroupHead => "ProductionGroupHead"@,
        AANonTerminal::ProductionTailList => "ProductionTailList"@,
        AANonTerminal::ProductionTail => "ProductionTail"@,
        AANonTerminal::Action => "Action"@,
        AANonTerminal::Predicate => "Predicate"@,
        AANonTerminal::SymbolList => "SymbolList"@,
        AANonTerminal::TaggedPrecedence => "TaggedPrecedence"@,
        AANonTerminal::Symbol => "Symbol"@,
    }
}

impl AANonTerminal {
    /// How this non terminal is written in messages.
    pub fn name(&self) -> (r: &'static str)
        ensures
            r@ == non_terminal_name(*self),
    {
        match self {
            AANonTerminal::AAStart => "AAStart",
            AANonTerminal::AASyntaxError => "AASyntaxError",
            AANonTerminal::AALexicalError => "AALexicalError",
            AANonTerminal::AASemanticError => "AASemanticError",
            AANonTerminal::Specification => "Specification",
            AANonTerminal::Preamble => "Preamble",
            AANonTerminal::Configuration => "Configuration",
            AANonTerminal::Definitions => "Definitions",
            AANonTerminal::ProductionRules => "ProductionRules",
            AANonTerminal::OptionalInjection => "OptionalInjection",
            AANonTerminal::Injection => "Injection",
            AANonTerminal::InjectionHead => "InjectionHead",
            AANonTerminal::AttributeType => "AttributeType",
            AANonTerminal::TargetType => "TargetType",
            AANonTerminal::TokenDefinitions => "TokenDefinitions",
            AANonTerminal::SkipDefinitions => "SkipDefinitions",
            AANonTerminal::PrecedenceDefinitions => "PrecedenceDefinitions",
            AANonTerminal::TokenDefinition => "TokenDefinition",
            AANonTerminal::NewTokenName => "NewTokenName",
            AANonTerminal::Pattern => "Pattern",
            AANonTerminal::SkipDefinition => "SkipDefinition",
            AANonTerminal::PrecedenceDefinition => "PrecedenceDefinition",
            AANonTerminal::TagList => "TagList",
            AANonTerminal::Tag => "Tag",
            AANonTerminal::ProductionGroup => "ProductionGroup",
            AANonTerminal::ProductionGroupHead => "ProductionGroupHead",
            AANonTerminal::ProductionTailList => "ProductionTailList",
            AANonTerminal::ProductionTail => "ProductionTail",
            AANonTerminal::Action => "Action",
            AANonTerminal::Predicate => "Predicate",
            AANonTerminal::SymbolList => "SymbolList",
            AANonTerminal::TaggedPrecedence => "TaggedPrecedence",
            AANonTerminal::Symbol => "Symbol",
        }
    }
}

/// The literal lexemes of the grammar specification language, with their tags.
pub open spec fn specification_literals() -> Seq<(u32, &'static str)> {
    seq![
        (3u32, "%attr"),
        (4u32, "%target"),
        (5u32, "%token"),
        (6u32, "%left"),
        (7u32, "%right"),
        (8u32, "%nonassoc"),
        (9u32, "%prec"),
        (10u32, "%skip"),
        (11u32, "%error"),
        (12u32, "%inject"),
        (13u32, "%%"),
        (14u32, ":"),
        (15u32, "|"),
        (16u32, "."),
    ]
}

/// The regular expression lexemes of the grammar specification language,
/// with their tags.
pub open spec fn specification_regexes() -> Seq<(u32, &'static str)> {
    seq![
        (1u32, "(\\(.+\\))"),
        (2u32, "(\"(\\\\\"|[^\"\\t\\r\\n\\v\\f])*\")"),
        (17u32, "([a-zA-Z]+[a-zA-Z0-9_]*)"),
        (18u32, "(\\?\\((.|[\\n\\r])*?\\?\\))"),
        (19u32, "(!\\{(.|[\\n\\r])*?!\\})"),
        (20u32, "(%\\{(.|[\\n\\r])*?%\\})"),
    ]
}

/// What the grammar specification language skips: comments and white space.
pub open spec fn specification_skips() -> Seq<&'static str> {
    seq!["(/\\*(.|[\\n\\r])*?\\*/)", "(//[^\\n\\r]*)", "(\\s+)"]
}

/// The lexical analyser of the grammar specification language: its lexemes
/// and skip rules, with the end marker 0.
pub fn lexical_analyzer() -> (r: Result<LexicalAnalyzer, LexanError>)
    ensures
        r is Ok <==> lexicon_ok(specification_literals(), specification_regexes(), specification_skips(), 0),
        r matches Ok(a) ==> a.wf() && a@ == (LexiconView {
            literals: pattern_map(lexeme_bytes(specification_literals())),
            regexes: specification_regexes().map_values(|l: (u32, &str)| (l.0, anchored(l.1@))),
            skips: specification_skips().map_values(|s: &str| anchored(s@)),
            end_marker: 0,
        }),
        r matches Err(e) ==> lexicon_error(specification_literals(), specification_regexes(), specification_skips(), 0, e),
{
    let literals: [(u32, &str); 14] = [
        (3, "%attr"),
        (4, "%target"),
        (5, "%token"),
        (6, "%left"),
        (7, "%right"),
        (8, "%nonassoc"),
        (9, "%prec"),
        (10, "%skip"),
        (11, "%error"),
        (12, "%inject"),
        (13, "%%"),
        (14, ":"),
        (15, "|"),
        (16, "."),
    ];
    let regexes: [(u32, &str); 6] = [
        (1, "(\\(.+\\))"),
        (2, "(\"(\\\\\"|[^\"\\t\\r\\n\\v\\f])*\")"),
        (17, "([a-zA-Z]+[a-zA-Z0-9_]*)"),
        (18, "(\\?\\((.|[\\n\\r])*?\\?\\))"),
        (19, "(!\\{(.|[\\n\\r])*?!\\})"),
        (20, "(%\\{(.|[\\n\\r])*?%\\})"),
    ];
    let skips: [&str; 3] = [
        "(/\\*(.|[\\n\\r])*?\\*/)",
        "(//[^\\n\\r]*)",
        "(\\s+)",
    ];
    proof {
        assert(literals@ =~= specification_literals());
        assert(regexes@ =~= specification_regexes());
        assert(skips@ =~= specification_skips());
    }
    LexicalAnalyzer::new(&literals, &regexes, &skips, 0)
}

/// The number of states of the parser of the grammar specification language.
pub const STATE_COUNT: u32 = 94;

/// The number of productions of the grammar specification language.
pub const PRODUCTION_COUNT: u32 = 62;

/// The terminals for which the parser has an action in `state`.
pub open spec fn expects(state: u32, t: AATerminal) -> bool {
    match state {
        0 => t == AATerminal::ATTR || t == AATerminal::TARGET || t == AATerminal::INJECT || t == AATerminal::RUSTCODE,
        1 => t == AATerminal::AAEnd,
        2 => t == AATerminal::ATTR || t == AATerminal::TARGET,
        3 => t == AATerminal::AAEnd || t == AATerminal::ATTR || t == AATerminal::TARGET || t == AATerminal::TOKEN || t == AATerminal::LEFT || t == AATerminal::RIGHT || t == AATerminal::NONASSOC || t == AATerminal::SKIP || t == AATerminal::INJECT || t == AATerminal::NEWSECTION || t == AATerminal::IDENT || t == AATerminal::RUSTCODE,
        4 => t == AATerminal::LITERAL,
        5 => t == AATerminal::DOT,
        6 => t == AATerminal::RUSTCODE,
        7 => t == AATerminal::NEWSECTION,
        8 => t == AATerminal::TARGET || t == AATerminal::INJECT,
        9 => t == AATerminal::ATTR || t == AATerminal::INJECT,
        10 => t == AATerminal::IDENT,
        11 => t == AATerminal::IDENT,
        12 => t == AATerminal::DOT,
        13 => t == AATerminal::AAEnd || t == AATerminal::ATTR || t == AATerminal::TARGET || t == AATerminal::TOKEN || t == AATerminal::LEFT || t == AATerminal::RIGHT || t == AATerminal::NONASSOC || t == AATerminal::SKIP || t == AATerminal::INJECT || t == AATerminal::NEWSECTION || t == AATerminal::IDENT || t == AATerminal::RUSTCODE,
        14 => t == AATerminal::ATTR || t == AATerminal::TARGET || t == AATerminal::INJECT,
        15 => t == AATerminal::TOKEN || t == AATerminal::INJECT,
        16 => t == AATerminal::TARGET,
        17 => t == AATerminal::ATTR,
        18 => t == AATerminal::TARGET || t == AATerminal::INJECT || t == AATerminal::NEWSECTION,
        19 => t == AATerminal::ATTR || t == AATerminal::INJECT || t == AATerminal::NEWSECTION,
        20 => t == AATerminal::ATTR || t == AATerminal::TARGET,
        21 => t == AATerminal::NEWSECTION,
        22 => t == AATerminal::TOKEN || t == AATerminal::LEFT || t == AATerminal::RIGHT || t == AATerminal::NONASSOC || t == AATerminal::SKIP || t == AATerminal::INJECT || t == AATerminal::NEWSECTION,
        23 => t == AATerminal::TOKEN,
        24 => t == AATerminal::INJECT || t == AATerminal::NEWSECTION,
        25 => t == AATerminal::INJECT || t == AATerminal::NEWSECTION,
        26 => t == AATerminal::INJECT || t == AATerminal::IDENT,
        27 => t == AATerminal::LEFT || t == AATerminal::RIGHT || t == AATerminal::NONASSOC || t == AATerminal::SKIP || t == AATerminal::INJECT || t == AATerminal::NEWSECTION,
        28 => t == AATerminal::TOKEN,
        29 => t == AATerminal::TOKEN || t == AATerminal::LEFT || t == AATerminal::RIGHT || t == AATerminal::NONASSOC || t == AATerminal::SKIP || t == AATerminal::INJECT || t == AATerminal::NEWSECTION,
        30 => t == AATerminal::IDENT,
        31 => t == AATerminal::NEWSECTION,
        32 => t == AATerminal::NEWSECTION,
        33 => t == AATerminal::AAEnd || t == AATerminal::IDENT,
        34 => t == AATerminal::IDENT,
        35 => t == AATerminal::LEFT || t == AATerminal::RIGHT || t == AATerminal::NONASSOC || t == AATerminal::INJECT || t == AATerminal::NEWSECTION,
        36 => t == AATerminal::SKIP,
        37 => t == AATerminal::TOKEN || t == AATerminal::LEFT || t == AATerminal::RIGHT || t == AATerminal::NONASSOC || t == AATerminal::SKIP || t == AATerminal::INJECT || t == AATerminal::NEWSECTION,
        38 => t == AATerminal::REGEX || t == AATerminal::LITERAL,
        39 => t == AATerminal::REGEX || t == AATerminal::LITERAL,
        40 => t == AATerminal::AAEnd || t == AATerminal::INJECT || t == AATerminal::IDENT,
        41 => t == AATerminal::LITERAL || t == AATerminal::ERROR || t == AATerminal::VBAR || t == AATerminal::DOT || t == AATerminal::IDENT || t == AATerminal::PREDICATE || t == AATerminal::ACTION,
        42 => t == AATerminal::COLON,
        43 => t == AATerminal::AAEnd || t == AATerminal::INJECT || t == AATerminal::IDENT,
        44 => t == AATerminal::LEFT || t == AATerminal::RIGHT || t == AATerminal::NONASSOC,
        45 => t == AATerminal::LEFT || t == AATerminal::RIGHT || t == AATerminal::NONASSOC || t == AATerminal::SKIP || t == AATerminal::INJECT || t == AATerminal::NEWSECTION,
        46 => t == AATerminal::REGEX,
        47 => t == AATerminal::TOKEN || t == AATerminal::LEFT || t == AATerminal::RIGHT || t == AATerminal::NONASSOC || t == AATerminal::SKIP || t == AATerminal::INJECT || t == AATerminal::NEWSECTION,
        48 => t == AATerminal::TOKEN || t == AATerminal::LEFT || t == AATerminal::RIGHT || t == AATerminal::NONASSOC || t == AATerminal::SKIP || t == AATerminal::INJECT || t == AATerminal::NEWSECTION,
        49 => t == AATerminal::TOKEN || t == AATerminal::LEFT || t == AATerminal::RIGHT || t == AATerminal::NONASSOC || t == AATerminal::SKIP || t == AATerminal::INJECT || t == AATerminal::NEWSECTION,
        50 => t == AATerminal::TOKEN || t == AATerminal::LEFT || t == AATerminal::RIGHT || t == AATerminal::NONASSOC || t == AATerminal::SKIP || t == AATerminal::INJECT || t == AATerminal::NEWSECTION,
        51 => t == AATerminal::AAEnd || t == AATerminal::IDENT,
        52 => t == AATerminal::VBAR || t == AATerminal::DOT,
        53 => t == AATerminal::VBAR || t == AATerminal::DOT,
        54 => t == AATerminal::VBAR || t == AATerminal::DOT,
        55 => t == AATerminal::VBAR || t == AATerminal::DOT || t == AATerminal::ACTION,
        56 => t == AATerminal::LITERAL || t == AATerminal::PRECEDENCE || t == AATerminal::ERROR || t == AATerminal::VBAR || t == AATerminal::DOT || t == AATerminal::IDENT || t == AATerminal::PREDICATE || t == AATerminal::ACTION,
        57 => t == AATerminal::VBAR || t == AATerminal::DOT,
        58 => t == AATerminal::PRECEDENCE || t == AATerminal::VBAR || t == AATerminal::DOT || t == AATerminal::ACTION,
        59 => t == AATerminal::LITERAL || t == AATerminal::PRECEDENCE || t == AATerminal::ERROR || t == AATerminal::VBAR || t == AATerminal::DOT || t == AATerminal::IDENT || t == AATerminal::PREDICATE || t == AATerminal::ACTION,
        60 => t == AATerminal::LITERAL || t == AATerminal::PRECEDENCE || t == AATerminal::ERROR || t == AATerminal::VBAR || t == AATerminal::DOT || t == AATerminal::IDENT || t == AATerminal::PREDICATE || t == AATerminal::ACTION,
        61 => t == AATerminal::LITERAL || t == AATerminal::PRECEDENCE || t == AATerminal::ERROR || t == AATerminal::VBAR || t == AATerminal::DOT || t == AATerminal::IDENT || t == AATerminal::PREDICATE || t == AATerminal::ACTION,
        62 => t == AATerminal::LITERAL || t == AATerminal::PRECEDENCE || t == AATerminal::ERROR || t == AATerminal::VBAR || t == AATerminal::DOT || t == AATerminal::IDENT || t == AATerminal::PREDICATE || t == AATerminal::ACTION,
        63 => t == AATerminal::LITERAL || t == AATerminal::ERROR || t == AATerminal::VBAR || t == AATerminal::DOT || t == AATerminal::IDENT || t == AATerminal::PREDICATE || t == AATerminal::ACTION,
        64 => t == AATerminal::AAEnd || t == AATerminal::IDENT,
        65 => t == AATerminal::LEFT || t == AATerminal::RIGHT || t == AATerminal::NONASSOC || t == AATerminal::INJECT || t == AATerminal::NEWSECTION,
        66 => t == AATerminal::LITERAL || t == AATerminal::IDENT,
        67 => t == AATerminal::LITERAL || t == AATerminal::IDENT,
        68 => t == AATerminal::LITERAL || t == AATerminal::IDENT,
        69 => t == AATerminal::LEFT || t == AATerminal::RIGHT || t == AATerminal::NONASSOC || t == AATerminal::SKIP || t == AATerminal::INJECT || t == AATerminal::NEWSECTION,
        70 => t == AATerminal::LEFT || t == AATerminal::RIGHT || t == AATerminal::NONASSOC || t == AATerminal::SKIP || t == AATerminal::INJECT || t == AATerminal::NEWSECTION,
        71 => t == AATerminal::AAEnd || t == AATerminal::INJECT || t == AATerminal::IDENT,
        72 => t == AATerminal::LITERAL || t == AATerminal::ERROR || t == AATerminal::VBAR || t == AATerminal::DOT || t == AATerminal::IDENT || t == AATerminal::PREDICATE || t == AATerminal::ACTION,
        73 => t == AATerminal::VBAR || t == AATerminal::DOT,
        74 => t == AATerminal::PRECEDENCE || t == AATerminal::VBAR || t == AATerminal::DOT || t == AATerminal::ACTION,
        75 => t == AATerminal::VBAR || t == AATerminal::DOT || t == AATerminal::ACTION,
        76 => t == AATerminal::VBAR || t == AATerminal::DOT,
        77 => t == AATerminal::LITERAL || t == AATerminal::IDENT,
        78 => t == AATerminal::LITERAL || t == AATerminal::PRECEDENCE || t == AATerminal::ERROR || t == AATerminal::VBAR || t == AATerminal::DOT || t == AATerminal::IDENT || t == AATerminal::PREDICATE || t == AATerminal::ACTION,
        79 => t == AATerminal::LEFT || t == AATerminal::RIGHT || t == AATerminal::NONASSOC || t == AATerminal::INJECT || t == AATerminal::NEWSECTION,
        80 => t == AATerminal::LITERAL || t == AATerminal::LEFT || t == AATerminal::RIGHT || t == AATerminal::NONASSOC || t == AATerminal::INJECT || t == AATerminal::NEWSECTION || t == AATerminal::IDENT,
        81 => t == AATerminal::LITERAL || t == AATerminal::LEFT || t == AATerminal::RIGHT || t == AATerminal::NONASSOC || t == AATerminal::INJECT || t == AATerminal::NEWSECTION || t == AATerminal::IDENT,
        82 => t == AATerminal::LITERAL || t == AATerminal::LEFT || t == AATerminal::RIGHT || t == AATerminal::NONASSOC || t == AATerminal::INJECT || t == AATerminal::NEWSECTION || t == AATerminal::IDENT,
        83 => t == AATerminal::LITERAL || t == AATerminal::LEFT || t == AATerminal::RIGHT || t == AATerminal::NONASSOC || t == AATerminal::INJECT || t == AATerminal::NEWSECTION || t == AATerminal::IDENT,
        84 => t == AATerminal::LITERAL || t == AATerminal::LEFT || t == AATerminal::RIGHT || t == AATerminal::NONASSOC || t == AATerminal::INJECT || t == AATerminal::NEWSECTION || t == AATerminal::IDENT,
        85 => t == AATerminal::LITERAL || t == AATerminal::LEFT || t == AATerminal::RIGHT || t == AATerminal::NONASSOC || t == AATerminal::INJECT || t == AATerminal::NEWSECTION || t == AATerminal::IDENT,
        86 => t == AATerminal::VBAR || t == AATerminal::DOT,
        87 => t == AATerminal::VBAR || t == AATerminal::DOT || t == AATerminal::ACTION,
        88 => t == AATerminal::VBAR || t == AATerminal::DOT,
        89 => t == AATerminal::VBAR || t == AATerminal::DOT,
        90 => t == AATerminal::VBAR || t == AATerminal::DOT || t == AATerminal::ACTION,
        91 => t == AATerminal::VBAR || t == AATerminal::DOT || t == AATerminal::ACTION,
        92 => t == AATerminal::LITERAL || t == AATerminal::LEFT || t == AATerminal::RIGHT || t == AATerminal::NONASSOC || t == AATerminal::INJECT || t == AATerminal::NEWSECTION || t == AATerminal::IDENT,
        93 => t == AATerminal::VBAR || t == AATerminal::DOT,
        _ => false,
    }
}

/// A name a grammar may give a symbol: one that does not start with `aa` or `AA`.
pub open spec fn allowable_name(name: Seq<char>) -> bool {
    !(name.len() >= 2 && ((name[0] == 'a' && name[1] == 'a') || (name[0] == 'A' && name[1] == 'A')))
}

/// Whether `name` may name a symbol of a grammar.
pub fn is_allowable_name(name: &str) -> (r: bool)
    ensures
        r == allowable_name(name@),
{
    if name.unicode_len() < 2 {
        return true;
    }
    let first = name.get_char(0);
    let second = name.get_char(1);
    !((first == 'a' && second == 'a') || (first == 'A' && second == 'A'))
}

/// The terminal whose tag is `tag`, if any.
pub open spec fn terminal_of_tag(tag: u32) -> Option<AATerminal> {
    match tag {
        0 => Some(AATerminal::AAEnd),
        1 => Some(AATerminal::REGEX),
        2 => Some(AATerminal::LITERAL),
        3 => Some(AATerminal::ATTR),
        4 => Some(AATerminal::TARGET),
        5 => Some(AATerminal::TOKEN),
        6 => Some(AATerminal::LEFT),
        7 => Some(AATerminal::RIGHT),
        8 => Some(AATerminal::NONASSOC),
        9 => Some(AATerminal::PRECEDENCE),
        10 => Some(AATerminal::SKIP),
        11 => Some(AATerminal::ERROR),
        12 => Some(AATerminal::INJECT),
        13 => Some(AATerminal::NEWSECTION),
        14 => Some(AATerminal::COLON),
        15 => Some(AATerminal::VBAR),
        16 => Some(AATerminal::DOT),
        17 => Some(AATerminal::IDENT),
        18 => Some(AATerminal::PREDICATE),
        19 => Some(AATerminal::ACTION),
        20 => Some(AATerminal::RUSTCODE),
        _ => None,
    }
}

/// Distinct terminals have distinct tags.
pub proof fn lemma_terminal_tag_injective(a: AATerminal, b: AATerminal)
    ensures
        terminal_tag(a) == terminal_tag(b) ==> a == b,
{
    assert(terminal_of_tag(terminal_tag(a)) == Some(a));
    assert(terminal_of_tag(terminal_tag(b)) == Some(b));
}

/// The action table of the parser: what it does in `state` with `tag` in
/// front, where `top_text` is the text of the symbol on top of the stack.
pub open spec fn action(state: u32, tag: AATerminal, top_text: Seq<char>) -> Action {
    match state {
        0 => match tag {
            AATerminal::INJECT => Action::Shift(4),
            AATerminal::RUSTCODE => Action::Reduce(2),
            AATerminal::ATTR | AATerminal::TARGET => Action::Reduce(6),
            _ => Action::SyntaxError,
        },
        1 => match tag {
            AATerminal::AAEnd => Action::Accept,
            _ => Action::SyntaxError,
        },
        2 => match tag {
            AATerminal::ATTR => Action::Shift(10),
            AATerminal::TARGET => Action::Shift(11),
            _ => Action::SyntaxError,
        },
        3 => match tag {
            AATerminal::AAEnd | AATerminal::ATTR | AATerminal::TARGET | AATerminal::TOKEN | AATerminal::LEFT | AATerminal::RIGHT | AATerminal::NONASSOC | AATerminal::SKIP | AATerminal::INJECT | AATerminal::NEWSECTION | AATerminal::IDENT | AATerminal::RUSTCODE => Action::Reduce(3),
            _ => Action::SyntaxError,
        },
        4 => match tag {
            AATerminal::LITERAL => Action::Shift(12),
            _ => Action::SyntaxError,
        },
        5 => match tag {
            AATerminal::DOT => Action::Shift(13),
            _ => Action::SyntaxError,
        },
        6 => match tag {
            AATerminal::RUSTCODE => Action::Shift(14),
            _ => Action::SyntaxError,
        },
        7 => match tag {
            AATerminal::NEWSECTION => Action::Shift(15),
            _ => Action::SyntaxError,
        },
        8 => match tag {
            AATerminal::INJECT => Action::Shift(4),
            AATerminal::TARGET => Action::Reduce(2),
            _ => Action::SyntaxError,
        },
        9 => match tag {
            AATerminal::INJECT => Action::Shift(4),
            AATerminal::ATTR => Action::Reduce(2),
            _ => Action::SyntaxError,
        },
        10 => match tag {
            AATerminal::IDENT => Action::Shift(18),
            _ => Action::SyntaxError,
        },
        11 => match tag {
            AATerminal::IDENT => Action::Shift(19),
            _ => Action::SyntaxError,
        },
        12 => match tag {
            AATerminal::DOT => Action::Reduce(4),
            _ => Action::SyntaxError,
        },
        13 => match tag {
            AATerminal::AAEnd | AATerminal::ATTR | AATerminal::TARGET | AATerminal::TOKEN | AATerminal::LEFT | AATerminal::RIGHT | AATerminal::NONASSOC | AATerminal::SKIP | AATerminal::INJECT | AATerminal::NEWSECTION | AATerminal::IDENT | AATerminal::RUSTCODE => Action::Reduce(5),
            _ => Action::SyntaxError,
        },
        14 => match tag {
            AATerminal::INJECT => Action::Shift(4),
            AATerminal::ATTR | AATerminal::TARGET => Action::Reduce(2),
            _ => Action::SyntaxError,
        },
        15 => match tag {
            AATerminal::INJECT => Action::Shift(4),
            AATerminal::TOKEN => Action::Reduce(2),
            _ => Action::SyntaxError,
        },
        16 => match tag {
            AATerminal::TARGET => Action::Shift(11),
            _ => Action::SyntaxError,
        },
        17 => match tag {
            AATerminal::ATTR => Action::Shift(10),
            _ => Action::SyntaxError,
        },
        18 => match tag {
            AATerminal::TARGET | AATerminal::INJECT | AATerminal::NEWSECTION => Action::Reduce(10),
            _ => Action::SyntaxError,
        },
        19 => match tag {
            AATerminal::ATTR | AATerminal::INJECT | AATerminal::NEWSECTION => Action::Reduce(11),
            _ => Action::SyntaxError,
        },
        20 => match tag {
            AATerminal::ATTR | AATerminal::TARGET => Action::Reduce(7),
            _ => Action::SyntaxError,
        },
        21 => match tag {
            AATerminal::NEWSECTION => Action::Shift(26),
            _ => Action::SyntaxError,
        },
        22 => match tag {
            AATerminal::INJECT => Action::Shift(4),
            AATerminal::TOKEN => Action::Reduce(2),
            AATerminal::LEFT | AATerminal::RIGHT | AATerminal::NONASSOC | AATerminal::SKIP | AATerminal::NEWSECTION => Action::Reduce(20),
            _ => Action::SyntaxError,
        },
        23 => match tag {
            AATerminal::TOKEN => Action::Shift(30),
            _ => Action::SyntaxError,
        },
        24 => match tag {
            AATerminal::INJECT => Action::Shift(4),
            AATerminal::NEWSECTION => Action::Reduce(2),
            _ => Action::SyntaxError,
        },
        25 => match tag {
            AATerminal::INJECT => Action::Shift(4),
            AATerminal::NEWSECTION => Action::Reduce(2),
            _ => Action::SyntaxError,
        },
        26 => match tag {
            AATerminal::INJECT => Action::Shift(4),
            AATerminal::IDENT => Action::Reduce(2),
            _ => Action::SyntaxError,
        },
        27 => match tag {
            AATerminal::INJECT => Action::Shift(4),
            AATerminal::SKIP => Action::Reduce(2),
            AATerminal::LEFT | AATerminal::RIGHT | AATerminal::NONASSOC | AATerminal::NEWSECTION => Action::Reduce(23),
            _ => Action::SyntaxError,
        },
        28 => match tag {
            AATerminal::TOKEN => Action::Shift(30),
            _ => Action::SyntaxError,
        },
        29 => match tag {
            AATerminal::TOKEN | AATerminal::LEFT | AATerminal::RIGHT | AATerminal::NONASSOC | AATerminal::SKIP | AATerminal::INJECT | AATerminal::NEWSECTION => Action::Reduce(13),
            _ => Action::SyntaxError,
        },
        30 => match tag {
            AATerminal::IDENT => Action::Shift(39),
            _ => Action::SyntaxError,
        },
        31 => match tag {
            AATerminal::NEWSECTION => Action::Reduce(8),
            _ => Action::SyntaxError,
        },
        32 => match tag {
            AATerminal::NEWSECTION => Action::Reduce(9),
            _ => Action::SyntaxError,
        },
        33 => match tag {
            AATerminal::IDENT => Action::Shift(42),
            AATerminal::AAEnd => Action::Reduce(1),
            _ => Action::SyntaxError,
        },
        34 => match tag {
            AATerminal::IDENT => Action::Shift(42),
            _ => Action::SyntaxError,
        },
        35 => match tag {
            AATerminal::INJECT => Action::Shift(4),
            AATerminal::LEFT | AATerminal::RIGHT | AATerminal::NONASSOC => Action::Reduce(2),
            AATerminal::NEWSECTION => Action::Reduce(12),
            _ => Action::SyntaxError,
        },
        36 => match tag {
            AATerminal::SKIP => Action::Shift(46),
            _ => Action::SyntaxError,
        },
        37 => match tag {
            AATerminal::INJECT => Action::Shift(4),
            AATerminal::TOKEN | AATerminal::LEFT | AATerminal::RIGHT | AATerminal::NONASSOC | AATerminal::SKIP | AATerminal::NEWSECTION => Action::Reduce(2),
            _ => Action::SyntaxError,
        },
        38 => match tag {
            AATerminal::REGEX => Action::Shift(49),
            AATerminal::LITERAL => Action::Shift(50),
            _ => Action::SyntaxError,
        },
        39 => match tag {
            AATerminal::REGEX | AATerminal::LITERAL => {
                if !allowable_name(top_text) {
                    Action::Reduce(16)
                } else {
                    Action::Reduce(17)
                }
            },
            _ => Action::SyntaxError,
        },
        40 => match tag {
            AATerminal::INJECT => Action::Shift(4),
            AATerminal::AAEnd | AATerminal::IDENT => Action::Reduce(2),
            _ => Action::SyntaxError,
        },
        41 => match tag {
            AATerminal::LITERAL => Action::Shift(61),
            AATerminal::ERROR => Action::Shift(62),
            AATerminal::IDENT => Action::Shift(60),
            AATerminal::PREDICATE => Action::Shift(58),
            AATerminal::ACTION => Action::Shift(57),
            AATerminal::VBAR | AATerminal::DOT => Action::Reduce(38),
            _ => Action::SyntaxError,
        },
        42 => match tag {
            AATerminal::COLON => Action::Shift(63),
            _ => Action::SyntaxError,
        },
        43 => match tag {
            AATerminal::INJECT => Action::Shift(4),
            AATerminal::AAEnd | AATerminal::IDENT => Action::Reduce(2),
            _ => Action::SyntaxError,
        },
        44 => match tag {
            AATerminal::LEFT => Action::Shift(66),
            AATerminal::RIGHT => Action::Shift(67),
            AATerminal::NONASSOC => Action::Shift(68),
            _ => Action::SyntaxError,
        },
        45 => match tag {
            AATerminal::INJECT => Action::Shift(4),
            AATerminal::LEFT | AATerminal::RIGHT | AATerminal::NONASSOC | AATerminal::SKIP | AATerminal::NEWSECTION => Action::Reduce(2),
            _ => Action::SyntaxError,
        },
        46 => match tag {
            AATerminal::REGEX => Action::Shift(70),
            _ => Action::SyntaxError,
        },
        47 => match tag {
            AATerminal::TOKEN | AATerminal::LEFT | AATerminal::RIGHT | AATerminal::NONASSOC | AATerminal::SKIP | AATerminal::INJECT | AATerminal::NEWSECTION => Action::Reduce(14),
            _ => Action::SyntaxError,
        },
        48 => match tag {
            AATerminal::TOKEN | AATerminal::LEFT | AATerminal::RIGHT | AATerminal::NONASSOC | AATerminal::SKIP | AATerminal::INJECT | AATerminal::NEWSECTION => Action::Reduce(15),
            _ => Action::SyntaxError,
        },
        49 => match tag {
            AATerminal::TOKEN | AATerminal::LEFT | AATerminal::RIGHT | AATerminal::NONASSOC | AATerminal::SKIP | AATerminal::INJECT | AATerminal::NEWSECTION => Action::Reduce(18),
            _ => Action::SyntaxError,
        },
        50 => match tag {
            AATerminal::TOKEN | AATerminal::LEFT | AATerminal::RIGHT | AATerminal::NONASSOC | AATerminal::SKIP | AATerminal::INJECT | AATerminal::NEWSECTION => Action::Reduce(19),
            _ => Action::SyntaxError,
        },
        51 => match tag {
            AATerminal::AAEnd | AATerminal::IDENT => Action::Reduce(33),
            _ => Action::SyntaxError,
        },
        52 => match tag {
            AATerminal::VBAR => Action::Shift(72),
            AATerminal::DOT => Action::Shift(71),
            _ => Action::SyntaxError,
        },
        53 => match tag {
            AATerminal::VBAR | AATerminal::DOT => Action::Reduce(36),
            _ => Action::SyntaxError,
        },
        54 => match tag {
            AATerminal::VBAR | AATerminal::DOT => Action::Reduce(39),
            _ => Action::SyntaxError,
        },
        55 => match tag {
            AATerminal::ACTION => Action::Shift(57),
            AATerminal::VBAR | AATerminal::DOT => Action::Reduce(41),
            _ => Action::SyntaxError,
        },
        56 => match tag {
            AATerminal::LITERAL => Action::Shift(61),
            AATerminal::PRECEDENCE => Action::Shift(77),
            AATerminal::ERROR => Action::Shift(62),
            AATerminal::IDENT => Action::Shift(60),
            AATerminal::PREDICATE => Action::Shift(58),
            AATerminal::ACTION => Action::Shift(57),
            AATerminal::VBAR | AATerminal::DOT => Action::Reduce(49),
            _ => Action::SyntaxError,
        },
        57 => match tag {
            AATerminal::VBAR | AATerminal::DOT => Action::Reduce(50),
            _ => Action::SyntaxError,
        },
        58 => match tag {
            AATerminal::PRECEDENCE | AATerminal::VBAR | AATerminal::DOT | AATerminal::ACTION => Action::Reduce(51),
            _ => Action::SyntaxError,
        },
        59 => match tag {
            AATerminal::LITERAL | AATerminal::PRECEDENCE | AATerminal::ERROR | AATerminal::VBAR | AATerminal::DOT | AATerminal::IDENT | AATerminal::PREDICATE | AATerminal::ACTION => Action::Reduce(54),
            _ => Action::SyntaxError,
        },
        60 => match tag {
            AATerminal::LITERAL | AATerminal::PRECEDENCE | AATerminal::ERROR | AATerminal::VBAR | AATerminal::DOT | AATerminal::IDENT | AATerminal::PREDICATE | AATerminal::ACTION => Action::Reduce(56),
            _ => Action::SyntaxError,
        },
        61 => match tag {
            AATerminal::LITERAL | AATerminal::PRECEDENCE | AATerminal::ERROR | AATerminal::VBAR | AATerminal::DOT | AATerminal::IDENT | AATerminal::PREDICATE | AATerminal::ACTION => Action::Reduce(57),
            _ => Action::SyntaxError,
        },
        62 => match tag {
            AATerminal::LITERAL | AATerminal::PRECEDENCE | AATerminal::ERROR | AATerminal::VBAR | AATerminal::DOT | AATerminal::IDENT | AATerminal::PREDICATE | AATerminal::ACTION => Action::Reduce(58),
            _ => Action::SyntaxError,
        },
        63 => match tag {
            AATerminal::LITERAL | AATerminal::ERROR | AATerminal::VBAR | AATerminal::DOT | AATerminal::IDENT | AATerminal::PREDICATE | AATerminal::ACTION => Action::Reduce(35),
            _ => Action::SyntaxError,
        },
        64 => match tag {
            AATerminal::AAEnd | AATerminal::IDENT => Action::Reduce(32),
            _ => Action::SyntaxError,
        },
        65 => match tag {
            AATerminal::INJECT => Action::Shift(4),
            AATerminal::LEFT | AATerminal::RIGHT | AATerminal::NONASSOC | AATerminal::NEWSECTION => Action::Reduce(2),
            _ => Action::SyntaxError,
        },
        66 => match tag {
            AATerminal::LITERAL => Action::Shift(82),
            AATerminal::IDENT => Action::Shift(83),
            _ => Action::SyntaxError,
        },
        67 => match tag {
            AATerminal::LITERAL => Action::Shift(82),
            AATerminal::IDENT => Action::Shift(83),
            _ => Action::SyntaxError,
        },
        68 => match tag {
            AATerminal::LITERAL => Action::Shift(82),
            AATerminal::IDENT => Action::Shift(83),
            _ => Action::SyntaxError,
        },
        69 => match tag {
            AATerminal::LEFT | AATerminal::RIGHT | AATerminal::NONASSOC | AATerminal::SKIP | AATerminal::INJECT | AATerminal::NEWSECTION => Action::Reduce(21),
            _ => Action::SyntaxError,
        },
        70 => match tag {
            AATerminal::LEFT | AATerminal::RIGHT | AATerminal::NONASSOC | AATerminal::SKIP | AATerminal::INJECT | AATerminal::NEWSECTION => Action::Reduce(22),
            _ => Action::SyntaxError,
        },
        71 => match tag {
            AATerminal::AAEnd | AATerminal::INJECT | AATerminal::IDENT => Action::Reduce(34),
            _ => Action::SyntaxError,
        },
        72 => match tag {
            AATerminal::LITERAL => Action::Shift(61),
            AATerminal::ERROR => Action::Shift(62),
            AATerminal::IDENT => Action::Shift(60),
            AATerminal::PREDICATE => Action::Shift(58),
            AATerminal::ACTION => Action::Shift(57),
            AATerminal::VBAR | AATerminal::DOT => Action::Reduce(38),
            _ => Action::SyntaxError,
        },
        73 => match tag {
            AATerminal::VBAR | AATerminal::DOT => Action::Reduce(40),
            _ => Action::SyntaxError,
        },
        74 => match tag {
            AATerminal::PRECEDENCE => Action::Shift(77),
            AATerminal::ACTION => Action::Shift(57),
            AATerminal::VBAR | AATerminal::DOT => Action::Reduce(45),
            _ => Action::SyntaxError,
        },
        75 => match tag {
            AATerminal::ACTION => Action::Shift(57),
            AATerminal::VBAR | AATerminal::DOT => Action::Reduce(47),
            _ => Action::SyntaxError,
        },
        76 => match tag {
            AATerminal::VBAR | AATerminal::DOT => Action::Reduce(48),
            _ => Action::SyntaxError,
        },
        77 => match tag {
            AATerminal::LITERAL => Action::Shift(91),
            AATerminal::IDENT => Action::Shift(90),
            _ => Action::SyntaxError,
        },
        78 => match tag {
            AATerminal::LITERAL | AATerminal::PRECEDENCE | AATerminal::ERROR | AATerminal::VBAR | AATerminal::DOT | AATerminal::IDENT | AATerminal::PREDICATE | AATerminal::ACTION => Action::Reduce(55),
            _ => Action::SyntaxError,
        },
        79 => match tag {
            AATerminal::LEFT | AATerminal::RIGHT | AATerminal::NONASSOC | AATerminal::INJECT | AATerminal::NEWSECTION => Action::Reduce(24),
            _ => Action::SyntaxError,
        },
        80 => match tag {
            AATerminal::LITERAL => Action::Shift(82),
            AATerminal::IDENT => Action::Shift(83),
            AATerminal::LEFT | AATerminal::RIGHT | AATerminal::NONASSOC | AATerminal::INJECT | AATerminal::NEWSECTION => Action::Reduce(25),
            _ => Action::SyntaxError,
        },
        81 => match tag {
            AATerminal::LITERAL | AATerminal::LEFT | AATerminal::RIGHT | AATerminal::NONASSOC | AATerminal::INJECT | AATerminal::NEWSECTION | AATerminal::IDENT => Action::Reduce(28),
            _ => Action::SyntaxError,
        },
        82 => match tag {
            AATerminal::LITERAL | AATerminal::LEFT | AATerminal::RIGHT | AATerminal::NONASSOC | AATerminal::INJECT | AATerminal::NEWSECTION | AATerminal::IDENT => Action::Reduce(30),
            _ => Action::SyntaxError,
        },
        83 => match tag {
            AATerminal::LITERAL | AATerminal::LEFT | AATerminal::RIGHT | AATerminal::NONASSOC | AATerminal::INJECT | AATerminal::NEWSECTION | AATerminal::IDENT => Action::Reduce(31),
            _ => Action::SyntaxError,
        },
        84 => match tag {
            AATerminal::LITERAL => Action::Shift(82),
            AATerminal::IDENT => Action::Shift(83),
            AATerminal::LEFT | AATerminal::RIGHT | AATerminal::NONASSOC | AATerminal::INJECT | AATerminal::NEWSECTION => Action::Reduce(26),
            _ => Action::SyntaxError,
        },
        85 => match tag {
            AATerminal::LITERAL => Action::Shift(82),
            AATerminal::IDENT => Action::Shift(83),
            AATerminal::LEFT | AATerminal::RIGHT | AATerminal::NONASSOC | AATerminal::INJECT | AATerminal::NEWSECTION => Action::Reduce(27),
            _ => Action::SyntaxError,
        },
        86 => match tag {
            AATerminal::VBAR | AATerminal::DOT => Action::Reduce(37),
            _ => Action::SyntaxError,
        },
        87 => match tag {
            AATerminal::ACTION => Action::Shift(57),
            AATerminal::VBAR | AATerminal::DOT => Action::Reduce(43),
            _ => Action::SyntaxError,
        },
        88 => match tag {
            AATerminal::VBAR | AATerminal::DOT => Action::Reduce(44),
            _ => Action::SyntaxError,
        },
        89 => match tag {
            AATerminal::VBAR | AATerminal::DOT => Action::Reduce(46),
            _ => Action::SyntaxError,
        },
        90 => match tag {
            AATerminal::VBAR | AATerminal::DOT | AATerminal::ACTION => Action::Reduce(52),
            _ => Action::SyntaxError,
        },
        91 => match tag {
            AATerminal::VBAR | AATerminal::DOT | AATerminal::ACTION => Action::Reduce(53),
            _ => Action::SyntaxError,
        },
        92 => match tag {
            AATerminal::LITERAL | AATerminal::LEFT | AATerminal::RIGHT | AATerminal::NONASSOC | AATerminal::INJECT | AATerminal::NEWSECTION | AATerminal::IDENT => Action::Reduce(29),
            _ => Action::SyntaxError,
        },
        93 => match tag {
            AATerminal::VBAR | AATerminal::DOT => Action::Reduce(42),
            _ => Action::SyntaxError,
        },
        _ => Action::SyntaxError,
    }
}

/// The action of the parser in `state` with `tag` in front, where `top_text`
/// is the text of the symbol on top of the stack (read by the one production
/// with a predicate).
pub fn next_action(state: u32, tag: AATerminal, top_text: &str) -> (r: Action)
    requires
        state < STATE_COUNT,
    ensures
        r == action(state, tag, top_text@),
        (r == Action::SyntaxError) == !expects(state, tag),
        r matches Action::Shift(s) ==> s < STATE_COUNT,
        r matches Action::Reduce(p) ==> p < PRODUCTION_COUNT,
{
    match state {
        0 => match tag {
            AATerminal::INJECT => Action::Shift(4),
            AATerminal::RUSTCODE => Action::Reduce(2),
            AATerminal::ATTR | AATerminal::TARGET => Action::Reduce(6),
            _ => Action::SyntaxError,
        },
        1 => match tag {
            AATerminal::AAEnd => Action::Accept,
            _ => Action::SyntaxError,
        },
        2 => match tag {
            AATerminal::ATTR => Action::Shift(10),
            AATerminal::TARGET => Action::Shift(11),
            _ => Action::SyntaxError,
        },
        3 => match tag {
            AATerminal::AAEnd | AATerminal::ATTR | AATerminal::TARGET | AATerminal::TOKEN | AATerminal::LEFT | AATerminal::RIGHT | AATerminal::NONASSOC | AATerminal::SKIP | AATerminal::INJECT | AATerminal::NEWSECTION | AATerminal::IDENT | AATerminal::RUSTCODE => Action::Reduce(3),
            _ => Action::SyntaxError,
        },
        4 => match tag {
            AATerminal::LITERAL => Action::Shift(12),
            _ => Action::SyntaxError,
        },
        5 => match tag {
            AATerminal::DOT => Action::Shift(13),
            _ => Action::SyntaxError,
        },
        6 => match tag {
            AATerminal::RUSTCODE => Action::Shift(14),
            _ => Action::SyntaxError,
        },
        7 => match tag {
            AATerminal::NEWSECTION => Action::Shift(15),
            _ => Action::SyntaxError,
        },
        8 => match tag {
            AATerminal::INJECT => Action::Shift(4),
            AATerminal::TARGET => Action::Reduce(2),
            _ => Action::SyntaxError,
        },
        9 => match tag {
            AATerminal::INJECT => Action::Shift(4),
            AATerminal::ATTR => Action::Reduce(2),
            _ => Action::SyntaxError,
        },
        10 => match tag {
            AATerminal::IDENT => Action::Shift(18),
            _ => Action::SyntaxError,
        },
        11 => match tag {
            AATerminal::IDENT => Action::Shift(19),
            _ => Action::SyntaxError,
        },
        12 => match tag {
            AATerminal::DOT => Action::Reduce(4),
            _ => Action::SyntaxError,
        },
        13 => match tag {
            AATerminal::AAEnd | AATerminal::ATTR | AATerminal::TARGET | AATerminal::TOKEN | AATerminal::LEFT | AATerminal::RIGHT | AATerminal::NONASSOC | AATerminal::SKIP | AATerminal::INJECT | AATerminal::NEWSECTION | AATerminal::IDENT | AATerminal::RUSTCODE => Action::Reduce(5),
            _ => Action::SyntaxError,
        },
        14 => match tag {
            AATerminal::INJECT => Action::Shift(4),
            AATerminal::ATTR | AATerminal::TARGET => Action::Reduce(2),
            _ => Action::SyntaxError,
        },
        15 => match tag {
            AATerminal::INJECT => Action::Shift(4),
            AATerminal::TOKEN => Action::Reduce(2),
            _ => Action::SyntaxError,
        },
        16 => match tag {
            AATerminal::TARGET => Action::Shift(11),
            _ => Action::SyntaxError,
        },
        17 => match tag {
            AATerminal::ATTR => Action::Shift(10),
            _ => Action::SyntaxError,
        },
        18 => match tag {
            AATerminal::TARGET | AATerminal::INJECT | AATerminal::NEWSECTION => Action::Reduce(10),
            _ => Action::SyntaxError,
        },
        19 => match tag {
            AATerminal::ATTR | AATerminal::INJECT | AATerminal::NEWSECTION => Action::Reduce(11),
            _ => Action::SyntaxError,
        },
        20 => match tag {
            AATerminal::ATTR | AATerminal::TARGET => Action::Reduce(7),
            _ => Action::SyntaxError,
        },
        21 => match tag {
            AATerminal::NEWSECTION => Action::Shift(26),
            _ => Action::SyntaxError,
        },
        22 => match tag {
            AATerminal::INJECT => Action::Shift(4),
            AATerminal::TOKEN => Action::Reduce(2),
            AATerminal::LEFT | AATerminal::RIGHT | AATerminal::NONASSOC | AATerminal::SKIP | AATerminal::NEWSECTION => Action::Reduce(20),
            _ => Action::SyntaxError,
        },
        23 => match tag {
            AATerminal::TOKEN => Action::Shift(30),
            _ => Action::SyntaxError,
        },
        24 => match tag {
            AATerminal::INJECT => Action::Shift(4),
            AATerminal::NEWSECTION => Action::Reduce(2),
            _ => Action::SyntaxError,
        },
        25 => match tag {
            AATerminal::INJECT => Action::Shift(4),
            AATerminal::NEWSECTION => Action::Reduce(2),
            _ => Action::SyntaxError,
        },
        26 => match tag {
            AATerminal::INJECT => Action::Shift(4),
            AATerminal::IDENT => Action::Reduce(2),
            _ => Action::SyntaxError,
        },
        27 => match tag {
            AATerminal::INJECT => Action::Shift(4),
            AATerminal::SKIP => Action::Reduce(2),
            AATerminal::LEFT | AATerminal::RIGHT | AATerminal::NONASSOC | AATerminal::NEWSECTION => Action::Reduce(23),
            _ => Action::SyntaxError,
        },
        28 => match tag {
            AATerminal::TOKEN => Action::Shift(30),
            _ => Action::SyntaxError,
        },
        29 => match tag {
            AATerminal::TOKEN | AATerminal::LEFT | AATerminal::RIGHT | AATerminal::NONASSOC | AATerminal::SKIP | AATerminal::INJECT | AATerminal::NEWSECTION => Action::Reduce(13),
            _ => Action::SyntaxError,
        },
        30 => match tag {
            AATerminal::IDENT => Action::Shift(39),
            _ => Action::SyntaxError,
        },
        31 => match tag {
            AATerminal::NEWSECTION => Action::Reduce(8),
            _ => Action::SyntaxError,
        },
        32 => match tag {
            AATerminal::NEWSECTION => Action::Reduce(9),
            _ => Action::SyntaxError,
        },
        33 => match tag {
            AATerminal::IDENT => Action::Shift(42),
            AATerminal::AAEnd => Action::Reduce(1),
            _ => Action::SyntaxError,
        },
        34 => match tag {
            AATerminal::IDENT => Action::Shift(42),
            _ => Action::SyntaxError,
        },
        35 => match tag {
            AATerminal::INJECT => Action::Shift(4),
            AATerminal::LEFT | AATerminal::RIGHT | AATerminal::NONASSOC => Action::Reduce(2),
            AATerminal::NEWSECTION => Action::Reduce(12),
            _ => Action::SyntaxError,
        },
        36 => match tag {
            AATerminal::SKIP => Action::Shift(46),
            _ => Action::SyntaxError,
        },
        37 => match tag {
            AATerminal::INJECT => Action::Shift(4),
            AATerminal::TOKEN | AATerminal::LEFT | AATerminal::RIGHT | AATerminal::NONASSOC | AATerminal::SKIP | AATerminal::NEWSECTION => Action::Reduce(2),
            _ => Action::SyntaxError,
        },
        38 => match tag {
            AATerminal::REGEX => Action::Shift(49),
            AATerminal::LITERAL => Action::Shift(50),
            _ => Action::SyntaxError,
        },
        39 => match tag {
            AATerminal::REGEX | AATerminal::LITERAL => {
                if !is_allowable_name(top_text) {
                    Action::Reduce(16)
                } else {
                    Action::Reduce(17)
                }
            },
            _ => Action::SyntaxError,
        },
        40 => match tag {
            AATerminal::INJECT => Action::Shift(4),
            AATerminal::AAEnd | AATerminal::IDENT => Action::Reduce(2),
            _ => Action::SyntaxError,
        },
        41 => match tag {
            AATerminal::LITERAL => Action::Shift(61),
            AATerminal::ERROR => Action::Shift(62),
            AATerminal::IDENT => Action::Shift(60),
            AATerminal::PREDICATE => Action::Shift(58),
            AATerminal::ACTION => Action::Shift(57),
            AATerminal::VBAR | AATerminal::DOT => Action::Reduce(38),
            _ => Action::SyntaxError,
        },
        42 => match tag {
            AATerminal::COLON => Action::Shift(63),
            _ => Action::SyntaxError,
        },
        43 => match tag {
            AATerminal::INJECT => Action::Shift(4),
            AATerminal::AAEnd | AATerminal::IDENT => Action::Reduce(2),
            _ => Action::SyntaxError,
        },
        44 => match tag {
            AATerminal::LEFT => Action::Shift(66),
            AATerminal::RIGHT => Action::Shift(67),
            AATerminal::NONASSOC => Action::Shift(68),
            _ => Action::SyntaxError,
        },
        45 => match tag {
            AATerminal::INJECT => Action::Shift(4),
            AATerminal::LEFT | AATerminal::RIGHT | AATerminal::NONASSOC | AATerminal::SKIP | AATerminal::NEWSECTION => Action::Reduce(2),
            _ => Action::SyntaxError,
        },
        46 => match tag {
            AATerminal::REGEX => Action::Shift(70),
            _ => Action::SyntaxError,
        },
        47 => match tag {
            AATerminal::TOKEN | AATerminal::LEFT | AATerminal::RIGHT | AATerminal::NONASSOC | AATerminal::SKIP | AATerminal::INJECT | AATerminal::NEWSECTION => Action::Reduce(14),
            _ => Action::SyntaxError,
        },
        48 => match tag {
            AATerminal::TOKEN | AATerminal::LEFT | AATerminal::RIGHT | AATerminal::NONASSOC | AATerminal::SKIP | AATerminal::INJECT | AATerminal::NEWSECTION => Action::Reduce(15),
            _ => Action::SyntaxError,
        },
        49 => match tag {
            AATerminal::TOKEN | AATerminal::LEFT | AATerminal::RIGHT | AATerminal::NONASSOC | AATerminal::SKIP | AATerminal::INJECT | AATerminal::NEWSECTION => Action::Reduce(18),
            _ => Action::SyntaxError,
        },
        50 => match tag {
            AATerminal::TOKEN | AATerminal::LEFT | AATerminal::RIGHT | AATerminal::NONASSOC | AATerminal::SKIP | AATerminal::INJECT | AATerminal::NEWSECTION => Action::Reduce(19),
            _ => Action::SyntaxError,
        },
        51 => match tag {
            AATerminal::AAEnd | AATerminal::IDENT => Action::Reduce(33),
            _ => Action::SyntaxError,
        },
        52 => match tag {
            AATerminal::VBAR => Action::Shift(72),
            AATerminal::DOT => Action::Shift(71),
            _ => Action::SyntaxError,
        },
        53 => match tag {
            AATerminal::VBAR | AATerminal::DOT => Action::Reduce(36),
            _ => Action::SyntaxError,
        },
        54 => match tag {
            AATerminal::VBAR | AATerminal::DOT => Action::Reduce(39),
            _ => Action::SyntaxError,
        },
        55 => match tag {
            AATerminal::ACTION => Action::Shift(57),
            AATerminal::VBAR | AATerminal::DOT => Action::Reduce(41),
            _ => Action::SyntaxError,
        },
        56 => match tag {
            AATerminal::LITERAL => Action::Shift(61),
            AATerminal::PRECEDENCE => Action::Shift(77),
            AATerminal::ERROR => Action::Shift(62),
            AATerminal::IDENT => Action::Shift(60),
            AATerminal::PREDICATE => Action::Shift(58),
            AATerminal::ACTION => Action::Shift(57),
            AATerminal::VBAR | AATerminal::DOT => Action::Reduce(49),
            _ => Action::SyntaxError,
        },
        57 => match tag {
            AATerminal::VBAR | AATerminal::DOT => Action::Reduce(50),
            _ => Action::SyntaxError,
        },
        58 => match tag {
            AATerminal::PRECEDENCE | AATerminal::VBAR | AATerminal::DOT | AATerminal::ACTION => Action::Reduce(51),
            _ => Action::SyntaxError,
        },
        59 => match tag {
            AATerminal::LITERAL | AATerminal::PRECEDENCE | AATerminal::ERROR | AATerminal::VBAR | AATerminal::DOT | AATerminal::IDENT | AATerminal::PREDICATE | AATerminal::ACTION => Action::Reduce(54),
            _ => Action::SyntaxError,
        },
        60 => match tag {
            AATerminal::LITERAL | AATerminal::PRECEDENCE | AATerminal::ERROR | AATerminal::VBAR | AATerminal::DOT | AATerminal::IDENT | AATerminal::PREDICATE | AATerminal::ACTION => Action::Reduce(56),
            _ => Action::SyntaxError,
        },
        61 => match tag {
            AATerminal::LITERAL | AATerminal::PRECEDENCE | AATerminal::ERROR | AATerminal::VBAR | AATerminal::DOT | AATerminal::IDENT | AATerminal::PREDICATE | AATerminal::ACTION => Action::Reduce(57),
            _ => Action::SyntaxError,
        },
        62 => match tag {
            AATerminal::LITERAL | AATerminal::PRECEDENCE | AATerminal::ERROR | AATerminal::VBAR | AATerminal::DOT | AATerminal::IDENT | AATerminal::PREDICATE | AATerminal::ACTION => Action::Reduce(58),
            _ => Action::SyntaxError,
        },
        63 => match tag {
            AATerminal::LITERAL | AATerminal::ERROR | AATerminal::VBAR | AATerminal::DOT | AATerminal::IDENT | AATerminal::PREDICATE | AATerminal::ACTION => Action::Reduce(35),
            _ => Action::SyntaxError,
        },
        64 => match tag {
            AATerminal::AAEnd | AATerminal::IDENT => Action::Reduce(32),
            _ => Action::SyntaxError,
        },
        65 => match tag {
            AATerminal::INJECT => Action::Shift(4),
            AATerminal::LEFT | AATerminal::RIGHT | AATerminal::NONASSOC | AATerminal::NEWSECTION => Action::Reduce(2),
            _ => Action::SyntaxError,
        },
        66 => match tag {
            AATerminal::LITERAL => Action::Shift(82),
            AATerminal::IDENT => Action::Shift(83),
            _ => Action::SyntaxError,
        },
        67 => match tag {
            AATerminal::LITERAL => Action::Shift(82),
            AATerminal::IDENT => Action::Shift(83),
            _ => Action::SyntaxError,
        },
        68 => match tag {
            AATerminal::LITERAL => Action::Shift(82),
            AATerminal::IDENT => Action::Shift(83),
            _ => Action::SyntaxError,
        },
        69 => match tag {
            AATerminal::LEFT | AATerminal::RIGHT | AATerminal::NONASSOC | AATerminal::SKIP | AATerminal::INJECT | AATerminal::NEWSECTION => Action::Reduce(21),
            _ => Action::SyntaxError,
        },
        70 => match tag {
            AATerminal::LEFT | AATerminal::RIGHT | AATerminal::NONASSOC | AATerminal::SKIP | AATerminal::INJECT | AATerminal::NEWSECTION => Action::Reduce(22),
            _ => Action::SyntaxError,
        },
        71 => match tag {
            AATerminal::AAEnd | AATerminal::INJECT | AATerminal::IDENT => Action::Reduce(34),
            _ => Action::SyntaxError,
        },
        72 => match tag {
            AATerminal::LITERAL => Action::Shift(61),
            AATerminal::ERROR => Action::Shift(62),
            AATerminal::IDENT => Action::Shift(60),
            AATerminal::PREDICATE => Action::Shift(58),
            AATerminal::ACTION => Action::Shift(57),
            AATerminal::VBAR | AATerminal::DOT => Action::Reduce(38),
            _ => Action::SyntaxError,
        },
        73 => match tag {
            AATerminal::VBAR | AATerminal::DOT => Action::Reduce(40),
            _ => Action::SyntaxError,
        },
        74 => match tag {
            AATerminal::PRECEDENCE => Action::Shift(77),
            AATerminal::ACTION => Action::Shift(57),
            AATerminal::VBAR | AATerminal::DOT => Action::Reduce(45),
            _ => Action::SyntaxError,
        },
        75 => match tag {
            AATerminal::ACTION => Action::Shift(57),
            AATerminal::VBAR | AATerminal::DOT => Action::Reduce(47),
            _ => Action::SyntaxError,
        },
        76 => match tag {
            AATerminal::VBAR | AATerminal::DOT => Action::Reduce(48),
            _ => Action::SyntaxError,
        },
        77 => match tag {
            AATerminal::LITERAL => Action::Shift(91),
            AATerminal::IDENT => Action::Shift(90),
            _ => Action::SyntaxError,
        },
        78 => match tag {
            AATerminal::LITERAL | AATerminal::PRECEDENCE | AATerminal::ERROR | AATerminal::VBAR | AATerminal::DOT | AATerminal::IDENT | AATerminal::PREDICATE | AATerminal::ACTION => Action::Reduce(55),
            _ => Action::SyntaxError,
        },
        79 => match tag {
            AATerminal::LEFT | AATerminal::RIGHT | AATerminal::NONASSOC | AATerminal::INJECT | AATerminal::NEWSECTION => Action::Reduce(24),
            _ => Action::SyntaxError,
        },
        80 => match tag {
            AATerminal::LITERAL => Action::Shift(82),
            AATerminal::IDENT => Action::Shift(83),
            AATerminal::LEFT | AATerminal::RIGHT | AATerminal::NONASSOC | AATerminal::INJECT | AATerminal::NEWSECTION => Action::Reduce(25),
            _ => Action::SyntaxError,
        },
        81 => match tag {
            AATerminal::LITERAL | AATerminal::LEFT | AATerminal::RIGHT | AATerminal::NONASSOC | AATerminal::INJECT | AATerminal::NEWSECTION | AATerminal::IDENT => Action::Reduce(28),
            _ => Action::SyntaxError,
        },
        82 => match tag {
            AATerminal::LITERAL | AATerminal::LEFT | AATerminal::RIGHT | AATerminal::NONASSOC | AATerminal::INJECT | AATerminal::NEWSECTION | AATerminal::IDENT => Action::Reduce(30),
            _ => Action::SyntaxError,
        },
        83 => match tag {
            AATerminal::LITERAL | AATerminal::LEFT | AATerminal::RIGHT | AATerminal::NONASSOC | AATerminal::INJECT | AATerminal::NEWSECTION | AATerminal::IDENT => Action::Reduce(31),
            _ => Action::SyntaxError,
        },
        84 => match tag {
            AATerminal::LITERAL => Action::Shift(82),
            AATerminal::IDENT => Action::Shift(83),
            AATerminal::LEFT | AATerminal::RIGHT | AATerminal::NONASSOC | AATerminal::INJECT | AATerminal::NEWSECTION => Action::Reduce(26),
            _ => Action::SyntaxError,
        },
        85 => match tag {
            AATerminal::LITERAL => Action::Shift(82),
            AATerminal::IDENT => Action::Shift(83),
            AATerminal::LEFT | AATerminal::RIGHT | AATerminal::NONASSOC | AATerminal::INJECT | AATerminal::NEWSECTION => Action::Reduce(27),
            _ => Action::SyntaxError,
        },
        86 => match tag {
            AATerminal::VBAR | AATerminal::DOT => Action::Reduce(37),
            _ => Action::SyntaxError,
        },
        87 => match tag {
            AATerminal::ACTION => Action::Shift(57),
            AATerminal::VBAR | AATerminal::DOT => Action::Reduce(43),
            _ => Action::SyntaxError,
        },
        88 => match tag {
            AATerminal::VBAR | AATerminal::DOT => Action::Reduce(44),
            _ => Action::SyntaxError,
        },
        89 => match tag {
            AATerminal::VBAR | AATerminal::DOT => Action::Reduce(46),
            _ => Action::SyntaxError,
        },
        90 => match tag {
            AATerminal::VBAR | AATerminal::DOT | AATerminal::ACTION => Action::Reduce(52),
            _ => Action::SyntaxError,
        },
        91 => match tag {
            AATerminal::VBAR | AATerminal::DOT | AATerminal::ACTION => Action::Reduce(53),
            _ => Action::SyntaxError,
        },
        92 => match tag {
            AATerminal::LITERAL | AATerminal::LEFT | AATerminal::RIGHT | AATerminal::NONASSOC | AATerminal::INJECT | AATerminal::NEWSECTION | AATerminal::IDENT => Action::Reduce(29),
            _ => Action::SyntaxError,
        },
        93 => match tag {
            AATerminal::VBAR | AATerminal::DOT => Action::Reduce(42),
            _ => Action::SyntaxError,
        },
        _ => Action::SyntaxError,
    }
}

/// The left hand side and the length of the right hand side of each production.
pub open spec fn production(production_id: u32) -> (AANonTerminal, usize) {
    match production_id {
        0 => (AANonTerminal::AAStart, 1),
        1 => (AANonTerminal::Specification, 6),
        2 => (AANonTerminal::OptionalInjection, 0),
        3 => (AANonTerminal::OptionalInjection, 1),
        4 => (AANonTerminal::InjectionHead, 2),
        5 => (AANonTerminal::Injection, 2),
        6 => (AANonTerminal::Preamble, 0),
        7 => (AANonTerminal::Preamble, 3),
        8 => (AANonTerminal::Configuration, 4),
        9 => (AANonTerminal::Configuration, 4),
        10 => (AANonTerminal::AttributeType, 2),
        11 => (AANonTerminal::TargetType, 2),
        12 => (AANonTerminal::Definitions, 3),
        13 => (AANonTerminal::TokenDefinitions, 2),
        14 => (AANonTerminal::TokenDefinitions, 4),
        15 => (AANonTerminal::TokenDefinition, 3),
        16 => (AANonTerminal::NewTokenName, 1),
        17 => (AANonTerminal::NewTokenName, 1),
        18 => (AANonTerminal::Pattern, 1),
        19 => (AANonTerminal::Pattern, 1),
        20 => (AANonTerminal::SkipDefinitions, 0),
        21 => (AANonTerminal::SkipDefinitions, 4),
        22 => (AANonTerminal::SkipDefinition, 2),
        23 => (AANonTerminal::PrecedenceDefinitions, 0),
        24 => (AANonTerminal::PrecedenceDefinitions, 4),
        25 => (AANonTerminal::PrecedenceDefinition, 2),
        26 => (AANonTerminal::PrecedenceDefinition, 2),
        27 => (AANonTerminal::PrecedenceDefinition, 2),
        28 => (AANonTerminal::TagList, 1),
        29 => (AANonTerminal::TagList, 2),
        30 => (AANonTerminal::Tag, 1),
        31 => (AANonTerminal::Tag, 1),
        32 => (AANonTerminal::ProductionRules, 3),
        33 => (AANonTerminal::ProductionRules, 3),
        34 => (AANonTerminal::ProductionGroup, 3),
        35 => (AANonTerminal::ProductionGroupHead, 2),
        36 => (AANonTerminal::ProductionTailList, 1),
        37 => (AANonTerminal::ProductionTailList, 3),
        38 => (AANonTerminal::ProductionTail, 0),
        39 => (AANonTerminal::ProductionTail, 1),
        40 => (AANonTerminal::ProductionTail, 2),
        41 => (AANonTerminal::ProductionTail, 1),
        42 => (AANonTerminal::ProductionTail, 4),
        43 => (AANonTerminal::ProductionTail, 3),
        44 => (AANonTerminal::ProductionTail, 3),
        45 => (AANonTerminal::ProductionTail, 2),
        46 => (AANonTerminal::ProductionTail, 3),
        47 => (AANonTerminal::ProductionTail, 2),
        48 => (AANonTerminal::ProductionTail, 2),
        49 => (AANonTerminal::ProductionTail, 1),
        50 => (AANonTerminal::Action, 1),
        51 => (AANonTerminal::Predicate, 1),
        52 => (AANonTerminal::TaggedPrecedence, 2),
        53 => (AANonTerminal::TaggedPrecedence, 2),
        54 => (AANonTerminal::SymbolList, 1),
        55 => (AANonTerminal::SymbolList, 2),
        56 => (AANonTerminal::Symbol, 1),
        57 => (AANonTerminal::Symbol, 1),
        58 => (AANonTerminal::Symbol, 1),
        59 => (AANonTerminal::AASyntaxError, 0),
        60 => (AANonTerminal::AALexicalError, 0),
        61 => (AANonTerminal::AASemanticError, 0),
        _ => (AANonTerminal::AAStart, 0),
    }
}

/// The left hand side and the length of the right hand side of the production.
pub fn production_data(production_id: u32) -> (r: (AANonTerminal, usize))
    requires
        production_id < PRODUCTION_COUNT,
    ensures
        r == production(production_id),
{
    match production_id {
        0 => (AANonTerminal::AAStart, 1),
        1 => (AANonTerminal::Specification, 6),
        2 => (AANonTerminal::OptionalInjection, 0),
        3 => (AANonTerminal::OptionalInjection, 1),
        4 => (AANonTerminal::InjectionHead, 2),
        5 => (AANonTerminal::Injection, 2),
        6 => (AANonTerminal::Preamble, 0),
        7 => (AANonTerminal::Preamble, 3),
        8 => (AANonTerminal::Configuration, 4),
        9 => (AANonTerminal::Configuration, 4),
        10 => (AANonTerminal::AttributeType, 2),
        11 => (AANonTerminal::TargetType, 2),
        12 => (AANonTerminal::Definitions, 3),
        13 => (AANonTerminal::TokenDefinitions, 2),
        14 => (AANonTerminal::TokenDefinitions, 4),
        15 => (AANonTerminal::TokenDefinition, 3),
        16 => (AANonTerminal::NewTokenName, 1),
        17 => (AANonTerminal::NewTokenName, 1),
        18 => (AANonTerminal::Pattern, 1),
        19 => (AANonTerminal::Pattern, 1),
        20 => (AANonTerminal::SkipDefinitions, 0),
        21 => (AANonTerminal::SkipDefinitions, 4),
        22 => (AANonTerminal::SkipDefinition, 2),
        23 => (AANonTerminal::PrecedenceDefinitions, 0),
        24 => (AANonTerminal::PrecedenceDefinitions, 4),
        25 => (AANonTerminal::PrecedenceDefinition, 2),
        26 => (AANonTerminal::PrecedenceDefinition, 2),
        27 => (AANonTerminal::PrecedenceDefinition, 2),
        28 => (AANonTerminal::TagList, 1),
        29 => (AANonTerminal::TagList, 2),
        30 => (AANonTerminal::Tag, 1),
        31 => (AANonTerminal::Tag, 1),
        32 => (AANonTerminal::ProductionRules, 3),
        33 => (AANonTerminal::ProductionRules, 3),
        34 => (AANonTerminal::ProductionGroup, 3),
        35 => (AANonTerminal::ProductionGroupHead, 2),
        36 => (AANonTerminal::ProductionTailList, 1),
        37 => (AANonTerminal::ProductionTailList, 3),
        38 => (AANonTerminal::ProductionTail, 0),
        39 => (AANonTerminal::ProductionTail, 1),
        40 => (AANonTerminal::ProductionTail, 2),
        41 => (AANonTerminal::ProductionTail, 1),
        42 => (AANonTerminal::ProductionTail, 4),
        43 => (AANonTerminal::ProductionTail, 3),
        44 => (AANonTerminal::ProductionTail, 3),
        45 => (AANonTerminal::ProductionTail, 2),
        46 => (AANonTerminal::ProductionTail, 3),
        47 => (AANonTerminal::ProductionTail, 2),
        48 => (AANonTerminal::ProductionTail, 2),
        49 => (AANonTerminal::ProductionTail, 1),
        50 => (AANonTerminal::Action, 1),
        51 => (AANonTerminal::Predicate, 1),
        52 => (AANonTerminal::TaggedPrecedence, 2),
        53 => (AANonTerminal::TaggedPrecedence, 2),
        54 => (AANonTerminal::SymbolList, 1),
        55 => (AANonTerminal::SymbolList, 2),
        56 => (AANonTerminal::Symbol, 1),
        57 => (AANonTerminal::Symbol, 1),
        58 => (AANonTerminal::Symbol, 1),
        59 => (AANonTerminal::AASyntaxError, 0),
        60 => (AANonTerminal::AALexicalError, 0),
        61 => (AANonTerminal::AASemanticError, 0),
        _ => (AANonTerminal::AAStart, 0),
    }
}

/// The state reached from `state` by the non terminal `lhs`, where there is one.
pub open spec fn goto(lhs: AANonTerminal, state: u32) -> Option<u32> {
    match state {
        0 => match lhs {
            AANonTerminal::Specification => Some(1),
            AANonTerminal::Preamble => Some(2),
            AANonTerminal::OptionalInjection => Some(6),
            AANonTerminal::Injection => Some(3),
            AANonTerminal::InjectionHead => Some(5),
            _ => None,
        },
        2 => match lhs {
            AANonTerminal::Configuration => Some(7),
            AANonTerminal::AttributeType => Some(8),
            AANonTerminal::TargetType => Some(9),
            _ => None,
        },
        8 => match lhs {
            AANonTerminal::OptionalInjection => Some(16),
            AANonTerminal::Injection => Some(3),
            AANonTerminal::InjectionHead => Some(5),
            _ => None,
        },
        9 => match lhs {
            AANonTerminal::OptionalInjection => Some(17),
            AANonTerminal::Injection => Some(3),
            AANonTerminal::InjectionHead => Some(5),
            _ => None,
        },
        14 => match lhs {
            AANonTerminal::OptionalInjection => Some(20),
            AANonTerminal::Injection => Some(3),
            AANonTerminal::InjectionHead => Some(5),
            _ => None,
        },
        15 => match lhs {
            AANonTerminal::Definitions => Some(21),
            AANonTerminal::OptionalInjection => Some(23),
            AANonTerminal::Injection => Some(3),
            AANonTerminal::InjectionHead => Some(5),
            AANonTerminal::TokenDefinitions => Some(22),
            _ => None,
        },
        16 => match lhs {
            AANonTerminal::TargetType => Some(24),
            _ => None,
        },
        17 => match lhs {
            AANonTerminal::AttributeType => Some(25),
            _ => None,
        },
        22 => match lhs {
            AANonTerminal::OptionalInjection => Some(28),
            AANonTerminal::Injection => Some(3),
            AANonTerminal::InjectionHead => Some(5),
            AANonTerminal::SkipDefinitions => Some(27),
            _ => None,
        },
        23 => match lhs {
            AANonTerminal::TokenDefinition => Some(29),
            _ => None,
        },
        24 => match lhs {
            AANonTerminal::OptionalInjection => Some(31),
            AANonTerminal::Injection => Some(3),
            AANonTerminal::InjectionHead => Some(5),
            _ => None,
        },
        25 => match lhs {
            AANonTerminal::OptionalInjection => Some(32),
            AANonTerminal::Injection => Some(3),
            AANonTerminal::InjectionHead => Some(5),
            _ => None,
        },
        26 => match lhs {
            AANonTerminal::ProductionRules => Some(33),
            AANonTerminal::OptionalInjection => Some(34),
            AANonTerminal::Injection => Some(3),
            AANonTerminal::InjectionHead => Some(5),
            _ => None,
        },
        27 => match lhs {
            AANonTerminal::OptionalInjection => Some(36),
            AANonTerminal::Injection => Some(3),
            AANonTerminal::InjectionHead => Some(5),
            AANonTerminal::PrecedenceDefinitions => Some(35),
            _ => None,
        },
        28 => match lhs {
            AANonTerminal::TokenDefinition => Some(37),
            _ => None,
        },
        30 => match lhs {
            AANonTerminal::NewTokenName => Some(38),
            _ => None,
        },
        33 => match lhs {
            AANonTerminal::ProductionGroup => Some(40),
            AANonTerminal::ProductionGroupHead => Some(41),
            _ => None,
        },
        34 => match lhs {
            AANonTerminal::ProductionGroup => Some(43),
            AANonTerminal::ProductionGroupHead => Some(41),
            _ => None,
        },
        35 => match lhs {
            AANonTerminal::OptionalInjection => Some(44),
            AANonTerminal::Injection => Some(3),
            AANonTerminal::InjectionHead => Some(5),
            _ => None,
        },
        36 => match lhs {
            AANonTerminal::SkipDefinition => Some(45),
            _ => None,
        },
        37 => match lhs {
            AANonTerminal::OptionalInjection => Some(47),
            AANonTerminal::Injection => Some(3),
            AANonTerminal::InjectionHead => Some(5),
            _ => None,
        },
        38 => match lhs {
            AANonTerminal::Pattern => Some(48),
            _ => None,
        },
        40 => match lhs {
            AANonTerminal::OptionalInjection => Some(51),
            AANonTerminal::Injection => Some(3),
            AANonTerminal::InjectionHead => Some(5),
            _ => None,
        },
        41 => match lhs {
            AANonTerminal::ProductionTailList => Some(52),
            AANonTerminal::ProductionTail => Some(53),
            AANonTerminal::Action => Some(54),
            AANonTerminal::Predicate => Some(55),
            AANonTerminal::SymbolList => Some(56),
            AANonTerminal::Symbol => Some(59),
            _ => None,
        },
        43 => match lhs {
            AANonTerminal::OptionalInjection => Some(64),
            AANonTerminal::Injection => Some(3),
            AANonTerminal::InjectionHead => Some(5),
            _ => None,
        },
        44 => match lhs {
            AANonTerminal::PrecedenceDefinition => Some(65),
            _ => None,
        },
        45 => match lhs {
            AANonTerminal::OptionalInjection => Some(69),
            AANonTerminal::Injection => Some(3),
            AANonTerminal::InjectionHead => Some(5),
            _ => None,
        },
        55 => match lhs {
            AANonTerminal::Action => Some(73),
            _ => None,
        },
        56 => match lhs {
            AANonTerminal::Action => Some(76),
            AANonTerminal::Predicate => Some(74),
            AANonTerminal::TaggedPrecedence => Some(75),
            AANonTerminal::Symbol => Some(78),
            _ => None,
        },
        65 => match lhs {
            AANonTerminal::OptionalInjection => Some(79),
            AANonTerminal::Injection => Some(3),
            AANonTerminal::InjectionHead => Some(5),
            _ => None,
        },
        66 => match lhs {
            AANonTerminal::TagList => Some(80),
            AANonTerminal::Tag => Some(81),
            _ => None,
        },
        67 => match lhs {
            AANonTerminal::TagList => Some(84),
            AANonTerminal::Tag => Some(81),
            _ => None,
        },
        68 => match lhs {
            AANonTerminal::TagList => Some(85),
            AANonTerminal::Tag => Some(81),
            _ => None,
        },
        72 => match lhs {
            AANonTerminal::ProductionTail => Some(86),
            AANonTerminal::Action => Some(54),
            AANonTerminal::Predicate => Some(55),
            AANonTerminal::SymbolList => Some(56),
            AANonTerminal::Symbol => Some(59),
            _ => None,
        },
        74 => match lhs {
            AANonTerminal::Action => Some(88),
            AANonTerminal::TaggedPrecedence => Some(87),
            _ => None,
        },
        75 => match lhs {
            AANonTerminal::Action => Some(89),
            _ => None,
        },
        80 => match lhs {
            AANonTerminal::Tag => Some(92),
            _ => None,
        },
        84 => match lhs {
            AANonTerminal::Tag => Some(92),
            _ => None,
        },
        85 => match lhs {
            AANonTerminal::Tag => Some(92),
            _ => None,
        },
        87 => match lhs {
            AANonTerminal::Action => Some(93),
            _ => None,
        },
        _ => None,
    }
}

/// The state the parser enters after reducing to `lhs` in `state`, where the
/// table has one.
pub fn goto_state(lhs: AANonTerminal, state: u32) -> (r: Option<u32>)
    ensures
        r == goto(lhs, state),
        r matches Some(s) ==> s < STATE_COUNT,
{
    match state {
        0 => match lhs {
            AANonTerminal::Specification => Some(1),
            AANonTerminal::Preamble => Some(2),
            AANonTerminal::OptionalInjection => Some(6),
            AANonTerminal::Injection => Some(3),
            AANonTerminal::InjectionHead => Some(5),
            _ => None,
        },
        2 => match lhs {
            AANonTerminal::Configuration => Some(7),
            AANonTerminal::AttributeType => Some(8),
            AANonTerminal::TargetType => Some(9),
            _ => None,
        },
        8 => match lhs {
            AANonTerminal::OptionalInjection => Some(16),
            AANonTerminal::Injection => Some(3),
            AANonTerminal::InjectionHead => Some(5),
            _ => None,
        },
        9 => match lhs {
            AANonTerminal::OptionalInjection => Some(17),
            AANonTerminal::Injection => Some(3),
            AANonTerminal::InjectionHead => Some(5),
            _ => None,
        },
        14 => match lhs {
            AANonTerminal::OptionalInjection => Some(20),
            AANonTerminal::Injection => Some(3),
            AANonTerminal::InjectionHead => Some(5),
            _ => None,
        },
        15 => match lhs {
            AANonTerminal::Definitions => Some(21),
            AANonTerminal::OptionalInjection => Some(23),
            AANonTerminal::Injection => Some(3),
            AANonTerminal::InjectionHead => Some(5),
            AANonTerminal::TokenDefinitions => Some(22),
            _ => None,
        },
        16 => match lhs {
            AANonTerminal::TargetType => Some(24),
            _ => None,
        },
        17 => match lhs {
            AANonTerminal::AttributeType => Some(25),
            _ => None,
        },
        22 => match lhs {
            AANonTerminal::OptionalInjection => Some(28),
            AANonTerminal::Injection => Some(3),
            AANonTerminal::InjectionHead => Some(5),
            AANonTerminal::SkipDefinitions => Some(27),
            _ => None,
        },
        23 => match lhs {
            AANonTerminal::TokenDefinition => Some(29),
            _ => None,
        },
        24 => match lhs {
            AANonTerminal::OptionalInjection => Some(31),
            AANonTerminal::Injection => Some(3),
            AANonTerminal::InjectionHead => Some(5),
            _ => None,
        },
        25 => match lhs {
            AANonTerminal::OptionalInjection => Some(32),
            AANonTerminal::Injection => Some(3),
            AANonTerminal::InjectionHead => Some(5),
            _ => None,
        },
        26 => match lhs {
            AANonTerminal::ProductionRules => Some(33),
            AANonTerminal::OptionalInjection => Some(34),
            AANonTerminal::Injection => Some(3),
            AANonTerminal::InjectionHead => Some(5),
            _ => None,
        },
        27 => match lhs {
            AANonTerminal::OptionalInjection => Some(36),
            AANonTerminal::Injection => Some(3),
            AANonTerminal::InjectionHead => Some(5),
            AANonTerminal::PrecedenceDefinitions => Some(35),
            _ => None,
        },
        28 => match lhs {
            AANonTerminal::TokenDefinition => Some(37),
            _ => None,
        },
        30 => match lhs {
            AANonTerminal::NewTokenName => Some(38),
            _ => None,
        },
        33 => match lhs {
            AANonTerminal::ProductionGroup => Some(40),
            AANonTerminal::ProductionGroupHead => Some(41),
            _ => None,
        },
        34 => match lhs {
            AANonTerminal::ProductionGroup => Some(43),
            AANonTerminal::ProductionGroupHead => Some(41),
            _ => None,
        },
        35 => match lhs {
            AANonTerminal::OptionalInjection => Some(44),
            AANonTerminal::Injection => Some(3),
            AANonTerminal::InjectionHead => Some(5),
            _ => None,
        },
        36 => match lhs {
            AANonTerminal::SkipDefinition => Some(45),
            _ => None,
        },
        37 => match lhs {
            AANonTerminal::OptionalInjection => Some(47),
            AANonTerminal::Injection => Some(3),
            AANonTerminal::InjectionHead => Some(5),
            _ => None,
        },
        38 => match lhs {
            AANonTerminal::Pattern => Some(48),
            _ => None,
        },
        40 => match lhs {
            AANonTerminal::OptionalInjection => Some(51),
            AANonTerminal::Injection => Some(3),
            AANonTerminal::InjectionHead => Some(5),
            _ => None,
        },
        41 => match lhs {
            AANonTerminal::ProductionTailList => Some(52),
            AANonTerminal::ProductionTail => Some(53),
            AANonTerminal::Action => Some(54),
            AANonTerminal::Predicate => Some(55),
            AANonTerminal::SymbolList => Some(56),
            AANonTerminal::Symbol => Some(59),
            _ => None,
        },
        43 => match lhs {
            AANonTerminal::OptionalInjection => Some(64),
            AANonTerminal::Injection => Some(3),
            AANonTerminal::InjectionHead => Some(5),
            _ => None,
        },
        44 => match lhs {
            AANonTerminal::PrecedenceDefinition => Some(65),
            _ => None,
        },
        45 => match lhs {
            AANonTerminal::OptionalInjection => Some(69),
            AANonTerminal::Injection => Some(3),
            AANonTerminal::InjectionHead => Some(5),
            _ => None,
        },
        55 => match lhs {
            AANonTerminal::Action => Some(73),
            _ => None,
        },
        56 => match lhs {
            AANonTerminal::Action => Some(76),
            AANonTerminal::Predicate => Some(74),
            AANonTerminal::TaggedPrecedence => Some(75),
            AANonTerminal::Symbol => Some(78),
            _ => None,
        },
        65 => match lhs {
            AANonTerminal::OptionalInjection => Some(79),
            AANonTerminal::Injection => Some(3),
            AANonTerminal::InjectionHead => Some(5),
            _ => None,
        },
        66 => match lhs {
            AANonTerminal::TagList => Some(80),
            AANonTerminal::Tag => Some(81),
            _ => None,
        },
        67 => match lhs {
            AANonTerminal::TagList => Some(84),
            AANonTerminal::Tag => Some(81),
            _ => None,
        },
        68 => match lhs {
            AANonTerminal::TagList => Some(85),
            AANonTerminal::Tag => Some(81),
            _ => None,
        },
        72 => match lhs {
            AANonTerminal::ProductionTail => Some(86),
            AANonTerminal::Action => Some(54),
            AANonTerminal::Predicate => Some(55),
            AANonTerminal::SymbolList => Some(56),
            AANonTerminal::Symbol => Some(59),
            _ => None,
        },
        74 => match lhs {
            AANonTerminal::Action => Some(88),
            AANonTerminal::TaggedPrecedence => Some(87),
            _ => None,
        },
        75 => match lhs {
            AANonTerminal::Action => Some(89),
            _ => None,
        },
        80 => match lhs {
            AANonTerminal::Tag => Some(92),
            _ => None,
        },
        84 => match lhs {
            AANonTerminal::Tag => Some(92),
            _ => None,
        },
        85 => match lhs {
            AANonTerminal::Tag => Some(92),
            _ => None,
        },
        87 => match lhs {
            AANonTerminal::Action => Some(93),
            _ => None,
        },
        _ => None,
    }
}

/// The tags of the terminals for which the parser has an action in `state`.
pub fn look_ahead_set(state: u32) -> (r: OrderedSet)
    requires
        state < STATE_COUNT,
    ensures
        forall|t: AATerminal| #[trigger] r@.contains(terminal_tag(t)) == expects(state, t),
        forall|x: u32| #[trigger] r@.contains(x) ==> x < 21,
{
    let mut set = OrderedSet::new();
    let mut tag: u32 = 0;
    while tag < 21
        invariant
            state < STATE_COUNT,
            tag <= 21,
            forall|t: AATerminal| terminal_tag(t) < tag ==> (#[trigger] set@.contains(terminal_tag(t)) == expects(state, t)),
            forall|x: u32| #[trigger] set@.contains(x) ==> x < tag,
        decreases 21 - tag,
    {
        match AATerminal::from_tag(tag) {
            Some(t) => {
                if next_action(state, t, "") != Action::SyntaxError {
                    set.insert(tag);
                }
            },
            None => {},
        }
        tag = tag + 1;
    }
    set
}

} // verus!
