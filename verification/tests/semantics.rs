use lalr1::alapgen::{lexical_analyzer, AANonTerminal};
use lalr1::grammar::Grammar;
use lalr1::location::Location;
use lalr1::parser::{apply_action, recover_from_error, ParseStack, Parser, Step};
use lalr1::production::GrammarSymbol;
use lalr1::semantics::{inner_text, trim_quotes, AttributeData, SpecificationParser};
use lalr1::symbol::Associativity;

/// Reads the specification `text`, which must be free of syntax errors.
fn read(text: &str) -> SpecificationParser {
    let analyzer = lexical_analyzer().unwrap();
    let mut tokens = analyzer.token_stream(text, "spec");
    let mut parser = SpecificationParser::new();
    let mut stack: ParseStack<AANonTerminal, AttributeData> = ParseStack::new();
    loop {
        let token = tokens.front().expect("no lexical error");
        let tag = *token.tag();
        let action = parser.next_action(&stack, tag);
        match apply_action(&mut parser, &mut stack, tag, token.lexeme(), token.location(), action) {
            Step::Accepted => return parser,
            Step::Shifted(_) => tokens.advance(),
            Step::Reduced(..) => (),
            _ => panic!("specification rejected at {}", token.location().to_string()),
        }
    }
}

fn messages(parser: &SpecificationParser) -> Vec<(bool, String)> {
    parser
        .diagnostics()
        .iter()
        .map(|d| (d.is_error, d.message.clone()))
        .collect()
}

const CALCULATOR: &str = r#"%{
use std::fs;
%}
%attr AttributeData
%target Calc
%%
%token PLUS "+"
%token TIMES "*"
%token NUMBER (\d+)
%skip (\s+)
%left PLUS
%left TIMES
%%
expr: expr "+" expr ?( true ?) !{ $$ = $1; !}
    | expr TIMES expr
    | NUMBER
    | %error
    .
"#;

#[test]
fn a_specification_is_read() {
    let parser = read(CALCULATOR);
    assert_eq!(parser.error_count(), 0);
    assert_eq!(parser.warning_count(), 0);
    assert_eq!(parser.preamble(), "\nuse std::fs;\n");
    assert_eq!(parser.attribute_type(), "AttributeData");
    assert_eq!(parser.target_type(), "Calc");
    let table = parser.symbol_table();
    let plus = table.get_token("PLUS").unwrap();
    assert_eq!(plus.text(), "\"+\"");
    assert_eq!(plus.associativity(), Associativity::Left);
    let times = table.get_token("TIMES").unwrap();
    // later declarations bind tighter
    assert!(times.precedence() < plus.precedence());
    assert_eq!(table.get_token("NUMBER").unwrap().text(), "(\\d+)");
    assert!(table.get_literal_token("\"*\"").is_some());
}

#[test]
fn a_specification_is_made_of_what_was_read() {
    let parser = read(CALCULATOR);
    let spec = parser.specification().unwrap();
    assert_eq!(spec.non_terminal_name(0), "AAStart");
    assert_eq!(spec.non_terminal_name(1), "AAError");
    assert_eq!(spec.non_terminal_name(2), "expr");
    assert_eq!(spec.attribute_type(), "AttributeData");
    assert_eq!(spec.target_type(), "Calc");
    // the start production, the four read and the error production
    assert_eq!(spec.productions_len(), 6);
    let start = spec.production(0);
    assert_eq!(start.left_hand_side, 0);
    assert!(matches!(start.right_hand_side[0], GrammarSymbol::NonTerminal(2)));
    let sum = spec.production(1);
    assert_eq!(sum.left_hand_side, 2);
    assert_eq!(sum.right_hand_side.len(), 3);
    assert_eq!(sum.predicate.as_deref(), Some(" true "));
    assert_eq!(sum.associativity, Associativity::Left);
    let recovery = spec.production(4);
    assert!(matches!(recovery.right_hand_side[0], GrammarSymbol::NonTerminal(1)));
    let error = spec.production(5);
    assert_eq!(error.left_hand_side, 1);
    assert!(error.right_hand_side.is_empty());
    let grammar = Grammar::try_from(spec).unwrap();
    // the precedences resolve the conflicts of the ambiguous expression grammar
    assert_eq!(grammar.total_unresolved_conflicts(), 0);
}

#[test]
fn tokens_defined_twice_are_errors() {
    let parser = read("%attr A\n%target B\n%%\n%token X \"x\"\n%token X \"y\"\n%token Y \"x\"\n%%\ns: X Y.\n");
    assert_eq!(parser.error_count(), 2);
    let found = messages(&parser);
    assert!(found[0].0);
    assert_eq!(found[0].1, "Token \"X\" already defined at spec:28:4:8");
    assert_eq!(found[1].1, "Token \"X\" defined at spec:41:5:8 has same definition");
}

#[test]
fn names_that_may_clash_are_warned_about() {
    let parser = read("%attr A\n%target B\n%%\n%token aaX \"x\"\n%%\nAAs: aaX.\n");
    assert_eq!(parser.error_count(), 0);
    assert_eq!(parser.warning_count(), 2);
    let found = messages(&parser);
    assert_eq!(found[0], (false, "token name \"aaX\" may clash with generated code".to_string()));
    assert_eq!(found[1], (false, "Non terminal name \"AAs\" may clash with generated code".to_string()));
}

#[test]
fn unknown_literals_and_misplaced_symbols_are_errors() {
    let parser = read(
        "%attr A\n%target B\n%%\n%token X \"x\"\n%left T\n%%\nX: X.\ns: \"q\" T %prec U | X %prec \"z\".\n",
    );
    let found: Vec<String> = messages(&parser).into_iter().map(|(_, m)| m).collect();
    assert_eq!(
        found,
        vec![
            "Token/tag \"X\" cannot be used as left hand side of production.".to_string(),
            "\"q\": unknown literal)".to_string(),
            "Tag \"T\" cannot be used in a production".to_string(),
            "U: unknown symbol".to_string(),
            "\"z\": unknown literal".to_string(),
        ]
    );
    assert_eq!(parser.error_count(), 5);
}

#[test]
fn precedence_tags_take_precedences() {
    let parser = read("%attr A\n%target B\n%%\n%token X \"x\"\n%right \"x\" T\n%nonassoc \"w\"\n%%\ns: X %prec T.\n");
    assert_eq!(parser.error_count(), 1);
    assert_eq!(messages(&parser)[0].1, "Literal token \"\"w\"\" is not known");
    let table = parser.symbol_table();
    assert_eq!(table.get_token("X").unwrap().associativity(), Associativity::Right);
    let tag = table.get_tag("T").unwrap();
    assert_eq!(tag.associativity(), Associativity::Right);
    assert_eq!(tag.precedence(), u16::MAX);
    let spec = parser.specification().unwrap();
    assert_eq!(spec.production(1).associativity, Associativity::Right);
    assert_eq!(spec.production(1).precedence, u16::MAX);
}

#[test]
fn injections_are_asked_for() {
    let mut parser = read("%attr A\n%inject \"extra.spec\".\n%target B\n%%\n%token X \"x\"\n%%\ns: X.\n");
    let (path, location) = parser.take_injection().unwrap();
    assert_eq!(path, "extra.spec");
    assert_eq!(location, Location::at("spec", 16, 2, 9));
    assert!(parser.take_injection().is_none());
}

#[test]
fn quotes_and_brackets_are_stripped() {
    assert_eq!(trim_quotes("\"a.txt\""), "a.txt");
    assert_eq!(trim_quotes("\"\"a\"\"\""), "a");
    assert_eq!(trim_quotes("\"\"\""), "");
    assert_eq!(trim_quotes("plain"), "plain");
    assert_eq!(inner_text("!{ x !}"), " x ");
    assert_eq!(inner_text("%{%}"), "");
}

#[test]
fn actions_refer_to_attributes() {
    assert_eq!(
        lalr1::production::expanded_action(" $$ = $1 + $3; $INJECT(a, b); "),
        " aa_lhs = aa_rhs[0] + aa_rhs[2]; aa_inject(a, b); "
    );
    assert_eq!(lalr1::production::rhs_reference("12"), "aa_rhs[11]");
    assert_eq!(lalr1::production::replace_all_text("a$$b$$", "$$", "X"), "aXbX");
}

#[test]
fn semantic_actions_are_written() {
    let parser = read(CALCULATOR);
    let spec = parser.specification().unwrap();
    let code = parser.write_semantic_action_code(&spec);
    assert!(code.starts_with("    fn do_semantic_action<F: FnMut(String, String)>(\n        &mut self,\n        aa_production_id: u32,\n        aa_rhs: Vec<AttributeData>,\n"));
    assert!(code.contains("            1 => {\n                // expr: expr \"+\" expr ?( true ?)\n                 aa_lhs = aa_rhs[0]; \n            }\n"));
    assert!(!code.contains("            2 => {"));
    assert!(code.ends_with("            _ => aa_inject(String::new(), String::new()),\n        };\n        aa_lhs\n    }\n\n"));
}

#[test]
fn the_parser_is_written() {
    let parser = read(CALCULATOR);
    let spec = parser.specification().unwrap();
    let semantic = parser.write_semantic_action_code(&spec);
    let grammar = Grammar::try_from(spec).unwrap();
    let tokens = parser.symbol_table().tokens();
    let lexer = grammar.write_lexical_analyzer_code(&tokens, parser.symbol_table().skip_rules());
    assert_eq!(
        lexer,
        "lazy_static::lazy_static! {\n    static ref AALEXAN: lexan::LexicalAnalyzer<AATerminal> = {\n        use AATerminal::*;\n        lexan::LexicalAnalyzer::new(\n            &[\n                (PLUS, r###\"+\"###),\n                (TIMES, r###\"*\"###),\n            ],\n            &[\n                (NUMBER, r###\"(\\d+)\"###),\n            ],\n            &[\n                r###\"(\\s+)\"###,\n            ],\n            AAEnd,\n        )\n    };\n}\n\n"
    );
    let symbols = grammar.write_symbol_enum_code(&tokens, parser.symbol_table().skip_rules());
    assert!(symbols.contains("pub enum AATerminal {\n    AAEnd,\n    NUMBER,\n    PLUS,\n    TIMES,\n}\n\n"));
    assert!(symbols.contains("            AATerminal::PLUS => write!(f, r###\"\"+\"\"###),\n"));
    assert!(symbols.contains("            AATerminal::NUMBER => write!(f, r###\"NUMBER\"###),\n"));
    assert!(symbols.contains("pub enum AANonTerminal {\n    AAStart,\n    AAError,\n    expr,\n}\n\n"));
    assert!(symbols.contains("            AANonTerminal::expr => write!(f, r\"expr\"),\n"));
    let code = grammar.write_parser_code(parser.preamble(), &tokens, parser.symbol_table().skip_rules(), &semantic);
    assert!(code.starts_with("\nuse std::fs;\n\nuse std::collections::BTreeSet;\n"));
    assert!(code.contains("impl lalr1plus::Parser<AATerminal, AANonTerminal, AttributeData> for Calc {\n"));
    assert!(code.contains("    fn goto_state(lhs: &AANonTerminal, current_state: u32) -> u32 {\n"));
    assert!(code.ends_with(&format!("{}}}\n", semantic)));
}

#[test]
fn unused_and_undefined_symbols_are_reported() {
    let parser = read("%attr A\n%target B\n%%\n%token X \"x\"\n%token Y \"y\"\n%left T\n%%\ns: X t u.\nu: X.\nv: X.\n");
    let unused: Vec<String> = parser.unused_symbol_warnings().iter().map(|d| d.message.clone()).collect();
    assert_eq!(
        unused,
        vec![
            "Symbol \"Y\" is not used".to_string(),
            "Symbol \"T\" is not used".to_string(),
            "Symbol \"v\" is not used".to_string(),
        ]
    );
    let (undefined, count) = parser.undefined_symbol_errors();
    assert_eq!(count, 1);
    assert_eq!(undefined.len(), 1);
    assert!(undefined[0].is_error);
    assert_eq!(undefined[0].message, "Symbol \"t\" is not defined");
    assert_eq!(undefined[0].location, Location::at("spec", 63, 8, 6));
}

#[test]
fn skip_rules_given_twice_are_kept_once() {
    let parser = read("%attr A\n%target B\n%%\n%token X \"x\"\n%skip (\\s+)\n%skip (\\s+)\n%%\ns: X.\n");
    assert_eq!(parser.error_count(), 0);
    assert_eq!(parser.symbol_table().skip_rules(), &vec!["(\\s+)".to_string()]);
}

#[test]
fn specification_parser_never_resumes_after_an_error() {
    let parser = SpecificationParser::new();
    let mut stack: ParseStack<AANonTerminal, AttributeData> = ParseStack::new();
    stack.push_terminal(3, AttributeData::Token("x".to_string(), Location::at("spec", 1, 1, 0)), 4);
    let error = AttributeData::Token("error".to_string(), Location::at("spec", 1, 2, 1));
    assert_eq!(recover_from_error(&parser, &mut stack, 3, error), None);
    assert_eq!(stack.current_state(), 4);
    assert_eq!(stack.attributes_len(), 1);
    assert!(!stack.is_last_error_state(4));
    assert!(!stack.is_last_error_state(0));
}

#[test]
fn adjacent_references_at_both_ends_are_expanded() {
    assert_eq!(lalr1::production::expanded_action("$1$2"), "aa_rhs[0]aa_rhs[1]");
    assert_eq!(lalr1::production::expanded_action("no references"), "no references");
    assert_eq!(lalr1::production::expanded_action("$0 $"), "aa_rhs[0] $");
}

#[test]
fn parser_generator_writes_the_parser() {
    let parser = read(CALCULATOR);
    let spec = parser.specification().unwrap();
    let semantic = parser.write_semantic_action_code(&spec);
    let tokens = parser.symbol_table().tokens();
    let skip_rules = parser.symbol_table().skip_rules().clone();
    let generator =
        lalr1::generator::ParserGenerator::new(spec, "// preamble", tokens, skip_rules, semantic.clone()).unwrap();
    let code = generator.parser_code();
    let again = read(CALCULATOR);
    let grammar = Grammar::try_from(again.specification().unwrap()).unwrap();
    assert_eq!(generator.grammar().total_unresolved_conflicts(), grammar.total_unresolved_conflicts());
    let tokens = again.symbol_table().tokens();
    assert_eq!(code, grammar.write_parser_code("// preamble", &tokens, again.symbol_table().skip_rules(), &semantic));
    assert!(code.starts_with("// preamble\n"));
    assert!(code.contains("pub enum AATerminal {\n    AAEnd,\n    NUMBER,\n    PLUS,\n    TIMES,\n}\n\n"));
    assert!(code.contains(&semantic));
}
