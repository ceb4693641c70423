use lalr1::firsts::{compute_firsts, FirstsData};
use lalr1::grammar::{Grammar, Specification};
use lalr1::location::Location;
use lalr1::production::{GrammarSymbol, Production};
use lalr1::symbol::Associativity;
use lalr1::terminal::{Token, TokenSet};

const START: u32 = 0;
const ERROR: u32 = 1;
const E: u32 = 2;
const T: u32 = 3;

fn literal(name: &str, text: &str) -> Token {
    Token::new_literal_token(name, text, &Location::new("spec"))
}

fn names(list: &[&str]) -> Vec<String> {
    list.iter().map(|n| n.to_string()).collect()
}

fn token_names(s: &TokenSet) -> Vec<String> {
    s.iter()
        .iter()
        .map(|t| match t {
            Token::EndToken => "AAEnd".to_string(),
            _ => t.name().to_string(),
        })
        .collect()
}

fn shifts(grammar: &Grammar, state: usize) -> Vec<(String, u32)> {
    grammar.parser_states()[state]
        .shift_list()
        .iter()
        .map(|(t, s)| (t.name().to_string(), *s))
        .collect()
}

fn gotos(grammar: &Grammar, state: usize) -> Vec<(u32, u32)> {
    grammar.parser_states()[state].goto_table().clone()
}

/// E: E "+" T | T;  T: ID
fn expression_specification(plus: &Token, id: &Token) -> Specification {
    let mut spec = Specification::new(names(&["AAStart", "AAError", "Expr", "Term"]), START, ERROR);
    spec.new_production(
        E,
        vec![
            GrammarSymbol::NonTerminal(E),
            GrammarSymbol::Terminal(plus.snapshot()),
            GrammarSymbol::NonTerminal(T),
        ],
        None,
        None,
    );
    spec.new_production(E, vec![GrammarSymbol::NonTerminal(T)], None, None);
    spec.new_production(T, vec![GrammarSymbol::Terminal(id.snapshot())], None, None);
    spec.set_firsts_data();
    spec
}

#[test]
fn expression_grammar_states() {
    let plus = literal("PLUS", "+");
    let id = literal("ID", "id");
    let spec = expression_specification(&plus, &id);
    let grammar = Grammar::try_from(spec).unwrap();
    let states = grammar.parser_states();
    assert_eq!(states.len(), 6);
    for (i, state) in states.iter().enumerate() {
        assert_eq!(state.ident() as usize, i);
    }
    // state 0: S: . E   E: . E + T   E: . T   T: . ID
    assert_eq!(states[0].grammar_items().len(), 4);
    assert_eq!(gotos(&grammar, 0), vec![(E, 1), (T, 2)]);
    assert_eq!(shifts(&grammar, 0), vec![("ID".to_string(), 3)]);
    // state 1: S: E .   E: E . + T
    assert_eq!(shifts(&grammar, 1), vec![("PLUS".to_string(), 4)]);
    assert!(gotos(&grammar, 1).is_empty());
    // states 2, 3 and 5 only reduce
    for s in [2usize, 3, 5] {
        assert!(shifts(&grammar, s).is_empty());
        assert!(gotos(&grammar, s).is_empty());
    }
    // state 4: E: E + . T   T: . ID
    assert_eq!(gotos(&grammar, 4), vec![(T, 5)]);
    assert_eq!(shifts(&grammar, 4), vec![("ID".to_string(), 3)]);
    // T: ID . is reduced on "+" and at the end
    assert_eq!(token_names(&states[3].reducible_look_ahead_set()), vec!["PLUS", "AAEnd"]);
    assert_eq!(grammar.total_unresolved_conflicts(), 0);
}

#[test]
fn ambiguous_grammar_has_an_unresolved_conflict() {
    let plus = literal("PLUS", "+");
    let id = literal("ID", "id");
    let mut spec = Specification::new(names(&["AAStart", "AAError", "Expr"]), START, ERROR);
    spec.new_production(
        E,
        vec![
            GrammarSymbol::NonTerminal(E),
            GrammarSymbol::Terminal(plus.snapshot()),
            GrammarSymbol::NonTerminal(E),
        ],
        None,
        None,
    );
    spec.new_production(E, vec![GrammarSymbol::Terminal(id.snapshot())], None, None);
    spec.set_firsts_data();
    let grammar = Grammar::try_from(spec).unwrap();
    assert_eq!(grammar.parser_states().len(), 5);
    assert_eq!(grammar.unresolved_sr_conflicts(), 1);
    assert_eq!(grammar.unresolved_rr_conflicts(), 0);
    assert_eq!(grammar.total_unresolved_conflicts(), 1);
    // only the state with the conflict is described
    let described = grammar.describe_sr_conflict_states();
    assert_eq!(described.matches("  Grammar Items:\n").count(), 1);
    assert!(described.contains("  Shift/Reduce Conflicts:\n"));
    assert_eq!(grammar.describe_rr_conflict_states(), "");
}

#[test]
fn precedence_resolves_the_ambiguity() {
    let mut plus = literal("PLUS", "+");
    plus.set_precedence(1);
    plus.set_associativity(Associativity::Left);
    let id = literal("ID", "id");
    let mut spec = Specification::new(names(&["AAStart", "AAError", "Expr"]), START, ERROR);
    spec.new_production(
        E,
        vec![
            GrammarSymbol::NonTerminal(E),
            GrammarSymbol::Terminal(plus.snapshot()),
            GrammarSymbol::NonTerminal(E),
        ],
        None,
        None,
    );
    spec.new_production(E, vec![GrammarSymbol::Terminal(id.snapshot())], None, None);
    spec.set_firsts_data();
    let grammar = Grammar::try_from(spec).unwrap();
    assert_eq!(grammar.total_unresolved_conflicts(), 0);
    // in E: E + E . the "+" is reduced, not shifted
    let state = &grammar.parser_states()[4];
    assert!(shifts(&grammar, 4).is_empty());
    assert_eq!(token_names(&state.reducible_look_ahead_set()), vec!["PLUS", "AAEnd"]);
}

#[test]
fn start_production_comes_first() {
    let id = literal("ID", "id");
    let mut spec = Specification::new(names(&["AAStart", "AAError", "Expr"]), START, ERROR);
    spec.new_production(E, vec![GrammarSymbol::Terminal(id.snapshot())], None, None);
    spec.set_firsts_data();
    let grammar = Grammar::try_from(spec).unwrap();
    // S: . E   E: . ID ; then S: E . ; then E: ID .
    assert_eq!(grammar.parser_states().len(), 3);
    let first = &grammar.parser_states()[0].grammar_items()[0].0;
    assert_eq!(first.production, 0);
    assert!(first.is_start);
}

#[test]
fn firsts_of_a_transparent_non_terminal() {
    // A: <empty> | "a";  B: A "b"
    let a = literal("A_TOKEN", "a");
    let b = literal("B_TOKEN", "b");
    let productions = vec![
        Production::new(0, 0, vec![], None, None),
        Production::new(1, 0, vec![GrammarSymbol::Terminal(a.snapshot())], None, None),
        Production::new(
            2,
            1,
            vec![GrammarSymbol::NonTerminal(0), GrammarSymbol::Terminal(b.snapshot())],
            None,
            None,
        ),
    ];
    let firsts: Vec<FirstsData> = compute_firsts(&productions, 2);
    assert!(firsts[0].transparent);
    assert_eq!(token_names(&firsts[0].token_set), vec!["A_TOKEN"]);
    assert!(!firsts[1].transparent);
    assert_eq!(token_names(&firsts[1].token_set), vec!["A_TOKEN", "B_TOKEN"]);
    // what "A" followed by the end can begin with
    let end = Token::EndToken;
    let caps = TokenSet::first_all_caps(&firsts, &[GrammarSymbol::NonTerminal(0)], &end);
    assert_eq!(token_names(&caps), vec!["A_TOKEN", "AAEnd"]);
    // "B" is not transparent: the token after it does not show
    let caps = TokenSet::first_all_caps(&firsts, &[GrammarSymbol::NonTerminal(1)], &end);
    assert_eq!(token_names(&caps), vec!["A_TOKEN", "B_TOKEN"]);
}

#[test]
fn production_takes_precedence_of_its_first_token() {
    let mut plus = literal("PLUS", "+");
    plus.set_precedence(3);
    plus.set_associativity(Associativity::Right);
    let p = Production::new(
        1,
        2,
        vec![GrammarSymbol::NonTerminal(2), GrammarSymbol::Terminal(plus.snapshot())],
        None,
        None,
    );
    assert_eq!((p.associativity, p.precedence), (Associativity::Right, 3));
    let q = Production::new(2, 2, vec![GrammarSymbol::NonTerminal(2)], None, None);
    assert_eq!((q.associativity, q.precedence), (Associativity::NonAssoc, 0));
    let r = Production::new(3, 2, vec![], Some((Associativity::Left, 9)), Some("x > 1".to_string()));
    assert_eq!((r.associativity, r.precedence), (Associativity::Left, 9));
    assert!(r.is_empty());
}

#[test]
fn state_description_lists_items_actions_and_gotos() {
    let plus = literal("PLUS", "+");
    let id = literal("ID", "id");
    let spec = expression_specification(&plus, &id);
    let grammar = Grammar::try_from(spec).unwrap();
    let states = grammar.parser_states();
    let text = states[1].description(grammar.specification(), states);
    let expected = "State<1>:\n  Grammar Items:\n    AAStart: Expr . : TokenSet{AAEnd}\n    Expr: Expr . + Term: TokenSet{PLUS, AAEnd}\n  Parser Action Table:\n    +: shift: -> State<4>\n    AAEnd: reduce: AAStart: Expr\n  Go To Table:\n    <empty>\n  Error Recovery State: <none>\n";
    assert_eq!(text, expected);
    let text = states[0].description(grammar.specification(), states);
    assert!(text.starts_with("State<0>:\n  Grammar Items:\n    AAStart: . Expr: TokenSet{AAEnd}\n"));
    assert!(text.contains("  Go To Table:\n    Expr -> State<1>\n    Term -> State<2>\n"));
    assert!(text.contains("    id: shift: -> State<3>\n"));
}

#[test]
fn production_and_item_text() {
    let plus = literal("PLUS", "+");
    let id = literal("ID", "id");
    let spec = expression_specification(&plus, &id);
    assert_eq!(spec.production_text(1), "Expr: Expr + Term");
    assert_eq!(spec.production_text(3), "Term: id");
    let grammar = Grammar::try_from(spec).unwrap();
    let items = grammar.parser_states()[4].grammar_items();
    assert_eq!(grammar.specification().item_text(&items[0].0), "Expr: Expr + . Term");
}

#[test]
fn next_action_code_of_expression_states() {
    let plus = literal("PLUS", "+");
    let id = literal("ID", "id");
    let spec = expression_specification(&plus, &id);
    let grammar = Grammar::try_from(spec).unwrap();
    let states = grammar.parser_states();
    let code = states[1].write_next_action_code(grammar.specification(), "    ");
    assert_eq!(
        code,
        "    1 => match aa_tag {\n        PLUS => Action::Shift(4),\n        // AAStart: Expr\n        AAEnd => Action::Accept,\n        _ => Action::SyntaxError,\n    },\n"
    );
    let code = states[3].write_next_action_code(grammar.specification(), "");
    assert_eq!(
        code,
        "3 => match aa_tag {\n    // Term: id\n    PLUS | AAEnd => Action::Reduce(3),\n    _ => Action::SyntaxError,\n},\n"
    );
}

#[test]
fn predicates_choose_between_reductions() {
    let id = literal("ID", "id");
    let mut spec = Specification::new(names(&["AAStart", "AAError", "Expr"]), START, ERROR);
    spec.new_production(E, vec![GrammarSymbol::Terminal(id.snapshot())], None, Some("$1 == 0".to_string()));
    spec.new_production(E, vec![GrammarSymbol::Terminal(id.snapshot())], None, None);
    spec.set_firsts_data();
    let grammar = Grammar::try_from(spec).unwrap();
    assert_eq!(grammar.unresolved_rr_conflicts(), 0);
    let states = grammar.parser_states();
    assert_eq!(states.len(), 3);
    let reductions = states[2].reductions();
    assert_eq!(reductions.reductions.len(), 1);
    assert_eq!(reductions.reductions[0].0, vec![1, 2]);
    let code = states[2].write_next_action_code(grammar.specification(), "");
    assert_eq!(
        code,
        "2 => match aa_tag {\n    AAEnd => {\n        if aa_attributes.at_len_minus_n(1) == 0 {\n            // Expr: id ?($1 == 0?)\n            Action::Reduce(1)\n        } else {\n            // Expr: id\n            Action::Reduce(2)\n        }\n    }\n    _ => Action::SyntaxError,\n},\n"
    );
}

#[test]
fn predicate_references_are_expanded() {
    let p = Production::new(
        4,
        2,
        vec![GrammarSymbol::NonTerminal(2), GrammarSymbol::NonTerminal(2), GrammarSymbol::NonTerminal(2)],
        None,
        Some("$? == PLUS && $2.x() > $10".to_string()),
    );
    assert_eq!(
        p.expanded_predicate(),
        Some("aa_tag == PLUS && aa_attributes.at_len_minus_n(2).x() > aa_attributes.at_len_minus_n(0)".to_string())
    );
    let q = Production::new(5, 2, vec![], None, None);
    assert_eq!(q.expanded_predicate(), None);
}

#[test]
fn parser_tables_as_code() {
    let plus = literal("PLUS", "+");
    let id = literal("ID", "id");
    let spec = expression_specification(&plus, &id);
    let grammar = Grammar::try_from(spec).unwrap();
    assert_eq!(
        grammar.specification().write_production_data_code(),
        "    fn production_data(production_id: u32) -> (AANonTerminal, usize) {\n        match production_id {\n            0 => (AANonTerminal::AAStart, 1),\n            1 => (AANonTerminal::Expr, 3),\n            2 => (AANonTerminal::Expr, 1),\n            3 => (AANonTerminal::Term, 1),\n            _ => panic!(\"malformed production data table\"),\n        }\n    }\n\n"
    );
    let panic_line = "_ => panic!(\"Malformed goto table: ({}, {})\", lhs, current_state),\n";
    let expected_goto = format!(
        "    fn goto_state(lhs: &AANonTerminal, current_state: u32) -> u32 {{\n        return match current_state {{\n            0 => match lhs {{\n                AANonTerminal::Expr => 1,\n                AANonTerminal::Term => 2,\n                {p}            }},\n            4 => match lhs {{\n                AANonTerminal::Term => 5,\n                {p}            }},\n            {p}        }}\n    }}\n\n",
        p = panic_line
    );
    assert_eq!(grammar.write_goto_table_code(), expected_goto);
    let look_ahead = grammar.write_look_ahead_set_code();
    assert!(look_ahead.starts_with("    fn look_ahead_set(state: u32) -> OrderedSet<AATerminal> {\n"));
    assert!(look_ahead.contains("            0 => vec![ID].into(),\n"));
    assert!(look_ahead.contains("            1 => vec![PLUS, AAEnd].into(),\n"));
    assert!(look_ahead.contains("            5 => vec![PLUS, AAEnd].into(),\n"));
    let next_action = grammar.write_next_action_code();
    assert!(next_action.contains("aa_attributes: &lalr1plus::ParseStack<AATerminal, AANonTerminal, AttributeData>,\n"));
    assert!(next_action.contains("            1 => match aa_tag {\n                PLUS => Action::Shift(4),\n"));
    assert!(next_action.ends_with("            _ => panic!(\"illegal state: {}\", aa_state),\n        }\n    }\n\n"));
}

#[test]
fn undefined_non_terminals_are_refused() {
    let id = literal("ID", "id");
    let mut spec = Specification::new(names(&["AAStart", "AAError", "Expr", "Term"]), START, ERROR);
    // Term is used but has no production
    spec.new_production(E, vec![GrammarSymbol::NonTerminal(T)], None, None);
    spec.new_production(E, vec![GrammarSymbol::Terminal(id.snapshot())], None, None);
    spec.set_firsts_data();
    assert_eq!(spec.undefined_symbols(), 1);
    assert_eq!(Grammar::try_from(spec).err(), Some(lalr1::parser::GrammarError::UndefinedSymbols(1)));
}

#[test]
fn errors_in_the_specification_are_refused() {
    let id = literal("ID", "id");
    let mut spec = Specification::new(names(&["AAStart", "AAError", "Expr"]), START, ERROR);
    spec.new_production(E, vec![GrammarSymbol::Terminal(id.snapshot())], None, None);
    spec.set_firsts_data();
    spec.error();
    spec.error();
    spec.warning();
    assert_eq!(spec.error_count(), 2);
    assert_eq!(spec.warning_count(), 1);
    assert_eq!(Grammar::try_from(spec).err(), Some(lalr1::parser::GrammarError::TooManyErrors(2)));
}

#[test]
fn numbers_are_listed_as_a_vector() {
    assert_eq!(lalr1::code::format_u32_vec(&vec![]), "vec![]");
    assert_eq!(lalr1::code::format_u32_vec(&vec![1, 20]), "vec![1, 20]");
}

#[test]
fn error_recovery_tables() {
    let plus = literal("PLUS", "+");
    let id = literal("ID", "id");
    let mut spec = Specification::new(names(&["AAStart", "AAError", "Expr", "Term"]), START, ERROR);
    spec.new_production(
        E,
        vec![
            GrammarSymbol::NonTerminal(E),
            GrammarSymbol::Terminal(plus.snapshot()),
            GrammarSymbol::NonTerminal(T),
        ],
        None,
        None,
    );
    spec.new_production(E, vec![GrammarSymbol::NonTerminal(T)], None, None);
    spec.new_production(T, vec![GrammarSymbol::Terminal(id.snapshot())], None, None);
    spec.new_production(T, vec![GrammarSymbol::NonTerminal(ERROR)], None, None);
    spec.set_firsts_data();
    let grammar = Grammar::try_from(spec).unwrap();
    let on_plus = grammar.error_recovery_states_for_token(&plus);
    assert_eq!(on_plus.len(), 2);
    assert_eq!(on_plus[0], 0);
    assert!(grammar.error_recovery_states_for_token(&id).is_empty());
    let recovery_state = grammar.parser_states()[0].error_recovery_state().unwrap();
    let code = grammar.write_error_recovery_code(&vec![id.snapshot(), plus.snapshot()]);
    assert!(code.starts_with(
        "    fn viable_error_recovery_states(token: &AATerminal) -> Vec<u32> {\n        match token {\n"
    ));
    assert!(code.contains(&format!(
        "            AATerminal::PLUS => vec![0, {}],\n",
        on_plus[1]
    )));
    assert!(!code.contains("AATerminal::ID =>"));
    assert!(code.contains("            _ => vec![],\n"));
    assert!(code.contains(&format!("            0 => {},\n", recovery_state)));
    assert!(code.ends_with(
        "            _ => panic!(\"No error go to state for {}\", state),\n        }\n    }\n\n"
    ));
}
