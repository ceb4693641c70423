use lalr1::ordered_set::{format_set, OrderedSet};
use lalr1::parser::{next_move, Action, Move, ParseStack, ProcessedState, ProductionId, Step, Symbol};

#[test]
fn ordered_set_basics() {
    let mut set = OrderedSet::new();
    assert!(set.is_empty());
    assert!(set.insert(5));
    assert!(set.insert(2));
    assert!(!set.insert(5));
    assert!(set.insert(11));
    assert_eq!(set.len(), 3);
    assert!(set.contains(&2));
    assert!(!set.contains(&3));
    assert!(!set.is_empty());
    assert_eq!(set.iter(), vec![2, 5, 11]);
    assert_eq!(set.to_string(), "2, 5, 11");
    assert_eq!(format_set(&set), "Set{2, 5, 11}");
    assert_eq!(format_set(&OrderedSet::new()), "Set{}");
}

#[test]
fn parse_stack_push_and_pop() {
    let mut stack: ParseStack<u8, &str> = ParseStack::new();
    assert_eq!(stack.current_state(), 0);
    stack.push_terminal(3, "a", 4);
    stack.push_non_terminal(7, "b", 9);
    stack.push_terminal(1, "c", 2);
    assert_eq!(stack.current_state(), 2);
    assert_eq!(*stack.at_len_minus_n(1), "c");
    assert_eq!(*stack.at_len_minus_n(3), "a");
    let popped = stack.pop_n(2);
    assert_eq!(popped, vec!["b", "c"]);
    assert_eq!(stack.current_state(), 4);
    stack.push_error(6, "error");
    assert_eq!(stack.current_state(), 6);
    let none = stack.pop_n(0);
    assert!(none.is_empty());
    let _ = Symbol::<u8>::Start;
}

#[test]
fn parse_stack_finds_viable_recovery_state() {
    let mut stack: ParseStack<u8, u32> = ParseStack::new();
    stack.push_terminal(1, 10, 3);
    stack.push_terminal(1, 11, 5);
    stack.push_terminal(1, 12, 8);
    let mut viable = OrderedSet::new();
    viable.insert(3);
    viable.insert(0);
    assert_eq!(stack.distance_to_viable_state(&viable), Some(2));
    assert!(stack.is_last_error_state(3));
    // the state where recovery last resumed is not chosen again, nor is the start state
    assert_eq!(stack.distance_to_viable_state(&viable), None);
    viable.insert(8);
    assert_eq!(stack.distance_to_viable_state(&viable), Some(0));
    assert!(stack.is_last_error_state(8));
    assert!(!stack.is_last_error_state(3));
}

#[test]
fn small_types() {
    assert_eq!(ProcessedState::default(), ProcessedState::Unprocessed);
    assert!(ProductionId::new(0).is_zero());
    assert!(!ProductionId::new(4).is_zero());
    assert_ne!(Action::Shift(1), Action::Reduce(1));
    assert_eq!(Action::Accept, Action::Accept);
    assert_ne!(Action::SyntaxError, Action::Accept);
}

#[test]
fn parse_loop_moves() {
    assert_eq!(next_move::<u8>(&None), Move::SkipLexicalError);
    assert_eq!(next_move::<u8>(&Some(Step::Accepted)), Move::Finish);
    assert_eq!(next_move::<u8>(&Some(Step::Shifted(3))), Move::Advance);
    assert_eq!(next_move(&Some(Step::Reduced(2, 7u8, 1, 4))), Move::Stay);
    assert_eq!(next_move::<u8>(&Some(Step::Rejected)), Move::Recover);
    assert_eq!(next_move::<u8>(&Some(Step::MalformedTable)), Move::Malformed);
}
