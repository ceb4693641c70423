use lalr1::alapgen::{
    lexical_analyzer, look_ahead_set, next_action, production_data, AANonTerminal,
    AATerminal,
};
use lalr1::parser::{apply_action, Action, ParseStack, Parser, Step};
use lalr1::semantics::{AttributeData, SpecificationParser};

/// Runs the parser over `text`; gives the reductions made, or the state and
/// the expected tags where the text is rejected.
fn parse(text: &str) -> Result<Vec<u32>, (u32, Vec<u32>)> {
    let analyzer = lexical_analyzer().unwrap();
    let mut tokens = analyzer.token_stream(text, "test");
    let mut parser = SpecificationParser::new();
    let mut stack: ParseStack<AANonTerminal, AttributeData> = ParseStack::new();
    let mut reductions = vec![];
    loop {
        let token = match tokens.front() {
            Ok(token) => token,
            Err(_) => {
                let state = stack.current_state();
                return Err((state, parser.look_ahead_set(state).iter()));
            }
        };
        let tag = *token.tag();
        let action = parser.next_action(&stack, tag);
        match apply_action(&mut parser, &mut stack, tag, token.lexeme(), token.location(), action) {
            Step::Accepted => return Ok(reductions),
            Step::Shifted(_) => tokens.advance(),
            Step::Reduced(p, _, _, _) => reductions.push(p),
            Step::Rejected => {
                let state = stack.current_state();
                return Err((state, parser.look_ahead_set(state).iter()));
            }
            Step::MalformedTable => panic!("malformed table"),
        }
    }
}

const SPEC: &str = r#"%{
use std::fs;
%}
%attr AttributeData
%target Calc
%%
%token PLUS "+"
%token NUMBER (\d+)
%skip (\s+)
%left PLUS
%%
expr: expr "+" expr ?( true ?) !{ $$ = $1; !}
    | NUMBER
    | %error
    .
"#;

#[test]
fn specification_is_accepted() {
    let reductions = parse(SPEC).unwrap();
    assert!(reductions.contains(&1));
    // the start production is never reduced: the parser accepts instead
    assert!(!reductions.contains(&0));
}

#[test]
fn missing_section_marker_is_rejected() {
    let text = "%attr A\n%target B\n%token X \"x\"\n";
    let (_, expected) = parse(text).unwrap_err();
    assert!(expected.contains(&AATerminal::NEWSECTION.tag()));
    assert!(!expected.contains(&AATerminal::TOKEN.tag()));
}

#[test]
fn reserved_token_names_take_the_predicated_production() {
    let state = 39;
    assert_eq!(next_action(state, AATerminal::REGEX, "aaName"), Action::Reduce(16));
    assert_eq!(next_action(state, AATerminal::LITERAL, "Name"), Action::Reduce(17));
    assert_eq!(next_action(state, AATerminal::DOT, "Name"), Action::SyntaxError);
}

#[test]
fn tables_agree() {
    for state in 0..94u32 {
        let expected = look_ahead_set(state).iter();
        for tag in 0..21u32 {
            let terminal = AATerminal::from_tag(tag).unwrap();
            let rejected = next_action(state, terminal, "x") == Action::SyntaxError;
            assert_eq!(rejected, !expected.contains(&tag));
        }
    }
    assert_eq!(production_data(1), (AANonTerminal::Specification, 6));
    assert_eq!(production_data(2), (AANonTerminal::OptionalInjection, 0));
}
