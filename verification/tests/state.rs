use lalr1::location::Location;
use lalr1::parser::ProcessedState;
use lalr1::state::{GrammarItemKey, ParserState};
use lalr1::symbol::Associativity;
use lalr1::terminal::{Token, TokenSet};

fn token(name: &str, precedence: u16, associativity: Associativity) -> Token {
    let mut t = Token::new_literal_token(name, name, &Location::new("spec"));
    if precedence > 0 {
        t.set_precedence(precedence);
    }
    t.set_associativity(associativity);
    t
}

fn set(tokens: &[&Token]) -> TokenSet {
    let mut s = TokenSet::new();
    for t in tokens {
        s.insert(t);
    }
    s
}

fn reducible(production: u32, len: usize, associativity: Associativity, precedence: u16) -> GrammarItemKey {
    let mut key = GrammarItemKey::new(production, len, associativity, precedence, false, false, false);
    for _ in 0..len {
        key = key.shifted();
    }
    key
}

fn names(s: &TokenSet) -> Vec<String> {
    s.iter().iter().map(|t| t.name().to_string()).collect()
}

#[test]
fn shift_reduce_resolved_by_precedence_and_associativity() {
    let plus = token("PLUS", 1, Associativity::Left);
    let times = token("TIMES", 2, Associativity::Left);
    let power = token("POWER", 3, Associativity::Right);
    // E: E + E .   with look ahead {+, *, ^}
    let item = reducible(1, 3, Associativity::Left, 1);
    let mut state = ParserState::new(7, vec![(item, set(&[&plus, &times, &power]))]);
    state.add_shift_action(&plus, 10);
    state.add_shift_action(&times, 11);
    state.add_shift_action(&power, 12);
    let unresolved = state.resolve_shift_reduce_conflicts();
    assert_eq!(unresolved, 0);
    // '+' has the production's precedence and the production is left associative: reduce
    let look_ahead = state.reducible_look_ahead_set();
    assert_eq!(names(&look_ahead), vec!["PLUS"]);
    // '*' and '^' bind tighter: shift
    let actions = state.look_ahead_set();
    assert_eq!(names(&actions), vec!["PLUS", "POWER", "TIMES"]);
    assert!(!state.error_recovery_look_ahead_set_contains(&plus));
}

#[test]
fn shift_reduce_default_favours_shift_and_is_recorded() {
    let els = token("ELSE", 0, Associativity::NonAssoc);
    let item = reducible(3, 5, Associativity::NonAssoc, 0);
    let mut state = ParserState::new(2, vec![(item, set(&[&els]))]);
    state.add_shift_action(&els, 9);
    assert_eq!(state.resolve_shift_reduce_conflicts(), 1);
    assert_eq!(state.shift_reduce_conflict_count(), 1);
    assert_eq!(state.reducible_look_ahead_set().len(), 0);
    assert_eq!(names(&state.look_ahead_set()), vec!["ELSE"]);
}

#[test]
fn shift_reduce_lower_precedence_token_is_reduced() {
    let plus = token("PLUS", 1, Associativity::Left);
    let item = reducible(2, 3, Associativity::Left, 2);
    let mut state = ParserState::new(3, vec![(item, set(&[&plus]))]);
    state.add_shift_action(&plus, 4);
    assert_eq!(state.resolve_shift_reduce_conflicts(), 0);
    assert_eq!(names(&state.look_ahead_set()), vec!["PLUS"]);
    assert_eq!(names(&state.reducible_look_ahead_set()), vec!["PLUS"]);
}

#[test]
fn reduce_reduce_favours_first_production() {
    let a = token("A", 0, Associativity::NonAssoc);
    let b = token("B", 0, Associativity::NonAssoc);
    let c = token("C", 0, Associativity::NonAssoc);
    let first = reducible(4, 1, Associativity::NonAssoc, 0);
    let second = reducible(6, 1, Associativity::NonAssoc, 0);
    let mut state = ParserState::new(5, vec![(first, set(&[&a, &b])), (second, set(&[&b, &c]))]);
    assert_eq!(state.resolve_reduce_reduce_conflicts(), 1);
    assert_eq!(state.reduce_reduce_conflict_count(), 1);
    assert_eq!(names(&state.reducible_look_ahead_set()), vec!["A", "B", "C"]);
}

#[test]
fn reduce_reduce_needs_two_reducible_items() {
    let a = token("A", 0, Associativity::NonAssoc);
    let only = reducible(4, 1, Associativity::NonAssoc, 0);
    let mut state = ParserState::new(5, vec![(only, set(&[&a]))]);
    assert_eq!(state.resolve_reduce_reduce_conflicts(), 0);
}

#[test]
fn parser_state_processing_marks() {
    let key = GrammarItemKey::new(0, 1, Associativity::NonAssoc, 0, false, false, true);
    assert!(key.is_kernel_item());
    assert!(!key.is_reducible());
    assert!(key.shifted().is_reducible());
    let mut state = ParserState::new(0, vec![(key, TokenSet::new())]);
    assert!(state.is_unprocessed());
    state.mark_as_processed();
    assert!(state.is_processed());
    assert!(!state.needs_reprocessing());
    assert_eq!(ProcessedState::default(), ProcessedState::Unprocessed);
    state.add_goto(3, 4);
    state.set_error_recovery_state(8);
    assert_eq!(state.ident(), 0);
}

#[test]
fn merging_look_aheads_marks_state_for_reprocessing() {
    let a = token("A", 0, Associativity::NonAssoc);
    let b = token("B", 0, Associativity::NonAssoc);
    let c = token("C", 0, Associativity::NonAssoc);
    let kernel = GrammarItemKey::new(2, 2, Associativity::NonAssoc, 0, false, false, false).shifted();
    let closure_item = GrammarItemKey::new(3, 1, Associativity::NonAssoc, 0, false, false, false);
    let mut state = ParserState::new(1, vec![(kernel, set(&[&a]))]);
    state.mark_as_processed();
    state.merge_lookahead_sets(&vec![(kernel, set(&[&b])), (closure_item, set(&[&c]))]);
    assert!(state.needs_reprocessing());
    assert_eq!(names(&state.look_ahead_set()), Vec::<String>::new());
    state.mark_as_processed();
    state.merge_lookahead_sets(&vec![(kernel, set(&[&a, &b]))]);
    assert!(state.is_processed());
    // the merged tokens are in the kernel item's set; the closure item brought nothing
    let shifted = kernel.shifted();
    let mut reducible = ParserState::new(1, vec![(shifted, set(&[&a]))]);
    reducible.merge_lookahead_sets(&vec![(shifted, set(&[&b, &c]))]);
    assert_eq!(names(&reducible.reducible_look_ahead_set()), vec!["A", "B", "C"]);
    assert!(reducible.is_unprocessed());
}

#[test]
fn states_without_actions_are_recognised() {
    let plus = token("PLUS", 1, Associativity::Left);
    let item = reducible(1, 1, Associativity::NonAssoc, 0);
    assert!(!ParserState::new(3, vec![(item, set(&[&plus]))]).has_empty_look_ahead_set());
    let item = reducible(1, 1, Associativity::NonAssoc, 0);
    assert!(ParserState::new(4, vec![(item, TokenSet::new())]).has_empty_look_ahead_set());
    let unreduced = GrammarItemKey::new(2, 1, Associativity::NonAssoc, 0, false, false, false);
    assert!(ParserState::new(5, vec![(unreduced, set(&[&plus]))]).has_empty_look_ahead_set());
}
