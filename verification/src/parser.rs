//! The parser runtime: the actions of an LALR(1) parser and the stack it
//! works on.

use vstd::prelude::*;

use crate::location::Location;
use crate::ordered_set::OrderedSet;

verus! {

/// What the parser does next, given its state and the token in front.
#[derive(Debug, Clone, Copy, PartialEq, Eq, Structural)]
pub enum Action {
    /// Push the token and move to the state.
    Shift(u32),
    /// Reduce by the production with this identifier.
    Reduce(u32),
    /// The input is complete and well formed.
    Accept,
    /// The token is not acceptable here.
    SyntaxError,
}

/// What sits on the parse stack beside each state.
#[derive(Debug, Clone, Copy, PartialEq, Eq, Structural)]
pub enum Symbol<N> {
    Terminal(u32),
    NonTerminal(N),
    Start,
    Error,
}

/// Abstract value of a [`ParseStack`].
pub struct ParseStackView<N, A> {
    /// The states, each with the symbol by which it was entered; the first
    /// is the start state.
    pub states: Seq<(Symbol<N>, u32)>,
    /// The attributes of the symbols above the start state.
    pub attributes: Seq<A>,
    /// The state in which error recovery last resumed, if any.
    pub last_error_state: Option<u32>,
}

/// The stack of an LALR(1) parser: states with the symbols that led to them,
/// and an attribute for each symbol.
#[derive(Debug)]
pub struct ParseStack<N, A> {
    states: Vec<(Symbol<N>, u32)>,
    attributes: Vec<A>,
    last_error_state: Option<u32>,
}

impl<N, A> View for ParseStack<N, A> {
    type V = ParseStackView<N, A>;

    closed spec fn view(&self) -> ParseStackView<N, A> {
        ParseStackView {
            states: self.states@,
            attributes: self.attributes@,
            last_error_state: self.last_error_state,
        }
    }
}

/// The state on top of the stack.
pub open spec fn top_state<N, A>(s: ParseStackView<N, A>) -> u32 {
    s.states.last().1
}

/// The number of states that error recovery pops so as to resume in a state
/// of `viable` other than the one where it last resumed: the least such
/// count, searching from the top of the stack down to (but not into) the
/// start state.
pub open spec fn viable_distance(
    states: Seq<(u32)>,
    last_error_state: Option<u32>,
    viable: Set<u32>,
    from: nat,
) -> Option<nat>
    decreases states.len() - from,
{
    if from + 1 >= states.len() {
        None
    } else {
        let candidate = states[states.len() - 1 - from];
        if last_error_state != Some(candidate) && viable.contains(candidate) {
            Some(from)
        } else {
            viable_distance(states, last_error_state, viable, from + 1)
        }
    }
}

/// The state numbers of a stack's entries.
pub open spec fn state_numbers<N>(states: Seq<(Symbol<N>, u32)>) -> Seq<u32> {
    states.map_values(|e: (Symbol<N>, u32)| e.1)
}

impl<N, A> ParseStack<N, A> {
    /// Every symbol above the start state has an attribute.
    pub open spec fn wf(&self) -> bool {
        self@.states.len() == self@.attributes.len() + 1
    }

    /// A stack holding only the start state.
    pub fn new() -> (r: Self)
        ensures
            r.wf(),
            r@.states == seq![(Symbol::<N>::Start, 0u32)],
            r@.attributes == Seq::<A>::empty(),
            r@.last_error_state == None::<u32>,
    {
        let mut states = Vec::new();
        states.push((Symbol::Start, 0u32));
        let r = ParseStack { states, attributes: Vec::new(), last_error_state: None };
        proof {
            assert(r@.states =~= seq![(Symbol::<N>::Start, 0u32)]);
            assert(r@.attributes =~= Seq::<A>::empty());
        }
        r
    }

    pub fn current_state(&self) -> (r: u32)
        requires
            self.wf(),
        ensures
            r == top_state(self@),
    {
        self.states[self.states.len() - 1].1
    }

    /// The attribute `n` places from the top of the stack, counting the top as 1.
    pub fn at_len_minus_n(&self, n: usize) -> (r: &A)
        requires
            1 <= n <= self@.attributes.len(),
        ensures
            *r == self@.attributes[self@.attributes.len() - n],
    {
        let len = self.attributes.len();
        &self.attributes[len - n]
    }

    /// Removes the top `n` symbols with their states; gives back their
    /// attributes, lowest first.
    pub fn pop_n(&mut self, n: usize) -> (r: Vec<A>)
        requires
            old(self).wf(),
            n <= old(self)@.attributes.len(),
        ensures
            final(self).wf(),
            final(self)@.states == old(self)@.states.take(old(self)@.states.len() - n),
            final(self)@.attributes == old(self)@.attributes.take(old(self)@.attributes.len() - n),
            r@ == old(self)@.attributes.skip(old(self)@.attributes.len() - n),
            final(self)@.last_error_state == old(self)@.last_error_state,
    {
        let len = self.states.len();
        self.states.truncate(len - n);
        let len = self.attributes.len();
        let r = self.attributes.split_off(len - n);
        proof {
            assert(r@ =~= old(self)@.attributes.skip(old(self)@.attributes.len() - n));
            assert(self@.attributes =~= old(self)@.attributes.take(old(self)@.attributes.len() - n));
            assert(self@.states =~= old(self)@.states.take(old(self)@.states.len() - n));
        }
        r
    }

    /// Pushes the error symbol, entering `state`.
    pub fn push_error(&mut self, state: u32, attribute: A)
        requires
            old(self).wf(),
        ensures
            final(self).wf(),
            final(self)@.states == old(self)@.states.push((Symbol::<N>::Error, state)),
            final(self)@.attributes == old(self)@.attributes.push(attribute),
            final(self)@.last_error_state == old(self)@.last_error_state,
    {
        self.states.push((Symbol::Error, state));
        self.attributes.push(attribute);
    }

    /// Pushes the terminal tagged `tag`, entering `new_state`.
    pub fn push_terminal(&mut self, tag: u32, attribute: A, new_state: u32)
        requires
            old(self).wf(),
        ensures
            final(self).wf(),
            final(self)@.states == old(self)@.states.push((Symbol::<N>::Terminal(tag), new_state)),
            final(self)@.attributes == old(self)@.attributes.push(attribute),
            final(self)@.last_error_state == old(self)@.last_error_state,
    {
        self.states.push((Symbol::Terminal(tag), new_state));
        self.attributes.push(attribute);
    }

    /// Pushes the non terminal `non_terminal`, entering `new_state`.
    pub fn push_non_terminal(&mut self, non_terminal: N, attribute: A, new_state: u32)
        requires
            old(self).wf(),
        ensures
            final(self).wf(),
            final(self)@.states == old(self)@.states.push((Symbol::NonTerminal(non_terminal), new_state)),
            final(self)@.attributes == old(self)@.attributes.push(attribute),
            final(self)@.last_error_state == old(self)@.last_error_state,
    {
        self.attributes.push(attribute);
        self.states.push((Symbol::NonTerminal(non_terminal), new_state));
    }

    /// Whether error recovery last resumed in `state`.
    pub fn is_last_error_state(&self, state: u32) -> (r: bool)
        ensures
            r == (self@.last_error_state == Some(state)),
    {
        match self.last_error_state {
            Some(last_error_state) => state == last_error_state,
            None => false,
        }
    }

    /// How many symbols error recovery pops so as to resume in one of
    /// `viable_states`; the state found is remembered as the last error state.
    pub fn distance_to_viable_state(&mut self, viable_states: &OrderedSet) -> (r: Option<usize>)
        requires
            old(self).wf(),
        ensures
            final(self).wf(),
            final(self)@.states == old(self)@.states,
            final(self)@.attributes == old(self)@.attributes,
            r matches Some(d) ==> viable_distance(state_numbers(old(self)@.states), old(self)@.last_error_state, viable_states@, 0) == Some(d as nat)
                && final(self)@.last_error_state == Some(old(self)@.states[old(self)@.states.len() - 1 - d].1),
            r is None ==> viable_distance(state_numbers(old(self)@.states), old(self)@.last_error_state, viable_states@, 0) is None
                && final(self)@.last_error_state == old(self)@.last_error_state,
    {
        let ghost numbers = state_numbers(self@.states);
        let len = self.states.len();
        let mut from: usize = 0;
        while from + 1 < len
            invariant
                len == self@.states.len(),
                numbers == state_numbers(self@.states),
                self@ == old(self)@,
                self.wf(),
                from < len,
                viable_distance(numbers, self@.last_error_state, viable_states@, 0) == viable_distance(numbers, self@.last_error_state, viable_states@, from as nat),
            decreases len - from,
        {
            let candidate = self.states[len - 1 - from].1;
            proof {
                assert(numbers[len - 1 - from] == candidate);
            }
            if !self.is_last_error_state(candidate) && viable_states.contains(&candidate) {
                self.last_error_state = Some(candidate);
                return Some(from);
            }
            from = from + 1;
        }
        None
    }
}

/// Why building a parser from a grammar specification failed.
#[derive(Debug, PartialEq, Eq)]
pub enum GrammarError {
    TooManyErrors(u32),
    UndefinedSymbols(u32),
    UnexpectedSRConflicts(u32, u32, String),
    UnexpectedRRConflicts(u32, u32, String),
    /// More parser states would be needed than can be numbered.
    TooManyStates,
}

/// How far the processing of a parser state has got.
#[derive(Debug, Clone, Copy, PartialEq, Eq, Structural)]
pub enum ProcessedState {
    Unprocessed,
    NeedsReprocessing,
    Processed,
}

impl Default for ProcessedState {
    fn default() -> (r: Self)
        ensures
            r == ProcessedState::Unprocessed,
    {
        ProcessedState::Unprocessed
    }
}

/// The identifier of a production; the start production is zero.
#[derive(Debug, Clone, Copy, PartialEq, Eq, Structural)]
pub struct ProductionId(pub u32);

impl ProductionId {
    pub fn new(id: u32) -> (r: Self)
        ensures
            r.0 == id,
    {
        ProductionId(id)
    }

    pub fn is_zero(&self) -> (r: bool)
        ensures
            r == (self.0 == 0),
    {
        self.0 == 0
    }
}

/// The tables of an LALR(1) parser and its semantic actions, as a generated
/// parser provides them; the parser runtime consults them.
pub trait Parser: Sized {
    /// The non terminal symbols of the grammar.
    type NonTerminal: Copy;
    /// The attributes that the semantic actions compute.
    type Attribute;

    /// What to do in the state on top of `stack` with the token tagged `tag` in front.
    fn next_action(&self, stack: &ParseStack<Self::NonTerminal, Self::Attribute>, tag: u32) -> Action
        requires
            stack.wf(),
    ;

    /// The production table: the left hand side and the length of the right
    /// hand side of each production it has.
    spec fn production_table(&self, production_id: u32) -> Option<(Self::NonTerminal, usize)>;

    /// The goto table: the state entered after reducing to `lhs` in `state`.
    spec fn goto_table(&self, lhs: Self::NonTerminal, state: u32) -> Option<u32>;

    /// The states in which error recovery may resume with the token tagged `tag`.
    spec fn viable_table(&self, tag: u32) -> Set<u32>;

    /// The error goto table: the state entered on the error symbol from `state`.
    spec fn error_goto_table(&self, state: u32) -> Option<u32>;

    /// The left hand side and the length of the right hand side of a
    /// production, where the table has it.
    fn production_data(&self, production_id: u32) -> (r: Option<(Self::NonTerminal, usize)>)
        ensures
            r == self.production_table(production_id),
    ;

    /// The state entered after reducing to `lhs` in `state`, where the table has one.
    fn goto_state(&self, lhs: &Self::NonTerminal, state: u32) -> (r: Option<u32>)
        ensures
            r == self.goto_table(*lhs, state),
    ;

    /// The tags of the tokens for which `state` has an action.
    fn look_ahead_set(&self, state: u32) -> OrderedSet;

    /// The states in which error recovery may resume with the token tagged `tag`.
    fn viable_error_recovery_states(&self, tag: u32) -> (r: OrderedSet)
        ensures
            r@ == self.viable_table(tag),
    ;

    /// The state entered on the error symbol from `state`, where there is one.
    fn error_goto_state(&self, state: u32) -> (r: Option<u32>)
        ensures
            r == self.error_goto_table(state),
    ;

    /// The attribute of a token with text `lexeme` found at `location`.
    fn token_attribute(&self, tag: u32, lexeme: &str, location: &Location) -> Self::Attribute;

    /// What the parser's own state keeps between its steps.
    spec fn valid(&self) -> bool;

    /// What the semantic action of the production numbered `production_id`
    /// does: from this parser and the attributes `rhs` of the right hand
    /// side, it gives the parser `next` and the attribute `r` of the left
    /// hand side.
    spec fn semantic_action(&self, production_id: u32, rhs: Seq<Self::Attribute>, next: Self, r: Self::Attribute) -> bool;

    /// The attribute of the left hand side of a production, computed from
    /// those of its right hand side.
    fn do_semantic_action(&mut self, production_id: u32, rhs: Vec<Self::Attribute>) -> (r: Self::Attribute)
        requires
            old(self).valid(),
        ensures
            final(self).valid(),
            old(self).semantic_action(production_id, rhs@, *final(self), r),
    ;
}

/// What one step of the parser did.
#[derive(Debug, Clone, Copy, PartialEq, Eq, Structural)]
pub enum Step<N> {
    /// The input is accepted.
    Accepted,
    /// The token was pushed, entering the state.
    Shifted(u32),
    /// The production was reduced: its left hand side, the length of its right
    /// hand side, and the state entered.
    Reduced(u32, N, usize, u32),
    /// The token is not acceptable in the current state.
    Rejected,
    /// The tables do not describe a parser: a production or a goto entry is
    /// missing, or a right hand side is longer than the stack.
    MalformedTable,
}

/// What the parse loop does next.
#[derive(Debug, Clone, Copy, PartialEq, Eq, Structural)]
pub enum Move {
    /// The input is accepted: parsing ends.
    Finish,
    /// A token was shifted: the stream moves on to the next token.
    Advance,
    /// A production was reduced: the same token is looked at again.
    Stay,
    /// The front of the stream is a lexical error: it is reported and
    /// skipped, and parsing goes on.
    SkipLexicalError,
    /// The token is not acceptable: the error is reported and the parser
    /// recovers.
    Recover,
    /// The tables do not describe a parser.
    Malformed,
}

/// The move after the parser's step, where `step` is `None` when the front
/// of the stream is a lexical error (and no step was taken).
pub open spec fn move_after<N>(step: Option<Step<N>>) -> Move {
    match step {
        None => Move::SkipLexicalError,
        Some(Step::Accepted) => Move::Finish,
        Some(Step::Shifted(_)) => Move::Advance,
        Some(Step::Reduced(..)) => Move::Stay,
        Some(Step::Rejected) => Move::Recover,
        Some(Step::MalformedTable) => Move::Malformed,
    }
}

/// Decides the next move of the parse loop from the step the parser took,
/// or from a lexical error at the front of the stream (`None`).
pub fn next_move<N>(step: &Option<Step<N>>) -> (r: Move)
    ensures
        r == move_after(*step),
{
    match step {
        None => Move::SkipLexicalError,
        Some(Step::Accepted) => Move::Finish,
        Some(Step::Shifted(_)) => Move::Advance,
        Some(Step::Reduced(..)) => Move::Stay,
        Some(Step::Rejected) => Move::Recover,
        Some(Step::MalformedTable) => Move::Malformed,
    }
}

/// Carries out `action` for the token tagged `tag` with text `lexeme`.
pub fn apply_action<P: Parser>(
    parser: &mut P,
    stack: &mut ParseStack<P::NonTerminal, P::Attribute>,
    tag: u32,
    lexeme: &str,
    location: &Location,
    action: Action,
) -> (r: Step<P::NonTerminal>)
    requires
        old(stack).wf(),
        old(parser).valid(),
    ensures
        final(stack).wf(),
        final(parser).valid(),
        final(stack)@.last_error_state == old(stack)@.last_error_state,
        match r {
            Step::Shifted(s) => action == Action::Shift(s)
                && final(stack)@.states == old(stack)@.states.push((Symbol::Terminal(tag), s))
                && final(stack)@.attributes.take(old(stack)@.attributes.len() as int) == old(stack)@.attributes
                && final(stack)@.attributes.len() == old(stack)@.attributes.len() + 1,
            Step::Reduced(p, lhs, n, s) => action == Action::Reduce(p)
                && old(parser).production_table(p) == Some((lhs, n))
                && old(parser).semantic_action(p, old(stack)@.attributes.skip(old(stack)@.attributes.len() - n),
                    *final(parser), final(stack)@.attributes.last())
                && n <= old(stack)@.attributes.len()
                && old(parser).goto_table(lhs, old(stack)@.states[old(stack)@.states.len() - 1 - n].1) == Some(s)
                && final(stack)@.states == old(stack)@.states.take(old(stack)@.states.len() - n).push((Symbol::NonTerminal(lhs), s))
                && final(stack)@.attributes.take(old(stack)@.attributes.len() - n)
                    == old(stack)@.attributes.take(old(stack)@.attributes.len() - n)
                && final(stack)@.attributes.len() == old(stack)@.attributes.len() - n + 1,
            Step::Accepted => action == Action::Accept && final(stack)@ == old(stack)@,
            Step::Rejected => action == Action::SyntaxError && final(stack)@ == old(stack)@,
            Step::MalformedTable => final(stack)@ == old(stack)@ && match action {
                Action::Reduce(p) => match old(parser).production_table(p) {
                    None => true,
                    Some((lhs, n)) => n > old(stack)@.attributes.len()
                        || old(parser).goto_table(lhs, old(stack)@.states[old(stack)@.states.len() - 1 - n].1) is None,
                },
                _ => false,
            },
        },
        !(r is Reduced) ==> *final(parser) == *old(parser),
{
    match action {
        Action::Accept => Step::Accepted,
        Action::SyntaxError => Step::Rejected,
        Action::Shift(next_state) => {
            let attribute = parser.token_attribute(tag, lexeme, location);
            let ghost before = stack@.attributes;
            stack.push_terminal(tag, attribute, next_state);
            proof {
                assert(stack@.attributes.take(before.len() as int) =~= before);
            }
            Step::Shifted(next_state)
        },
        Action::Reduce(production_id) => {
            match parser.production_data(production_id) {
                None => Step::MalformedTable,
                Some((lhs, rhs_len)) => {
                    if rhs_len > stack.attributes_len() {
                        return Step::MalformedTable;
                    }
                    let below = stack.state_below(rhs_len);
                    match parser.goto_state(&lhs, below) {
                        None => Step::MalformedTable,
                        Some(next_state) => {
                            let rhs = stack.pop_n(rhs_len);
                            let attribute = parser.do_semantic_action(production_id, rhs);
                            let ghost before = stack@.attributes;
                            stack.push_non_terminal(lhs, attribute, next_state);
                            proof {
                                assert(stack@.attributes.take(before.len() as int) =~= before);
                            }
                            Step::Reduced(production_id, lhs, rhs_len, next_state)
                        },
                    }
                },
            }
        },
    }
}

impl<N, A> ParseStack<N, A> {
    /// The number of attributes on the stack.
    pub fn attributes_len(&self) -> (r: usize)
        ensures
            r == self@.attributes.len(),
    {
        self.attributes.len()
    }

    /// The state `n` entries below the top.
    pub fn state_below(&self, n: usize) -> (r: u32)
        requires
            self.wf(),
            n <= self@.attributes.len(),
        ensures
            r == self@.states[self@.states.len() - 1 - n].1,
    {
        self.states[self.states.len() - 1 - n].1
    }
}

/// What error recovery does to the stack `old`, giving `new` and `r`, where
/// `viable` holds the states that may resume with the token in front and
/// `error_goto` gives the state entered on the error symbol: with no viable
/// state below the top (other than the last one recovered in), nothing
/// changes; with the nearest one `d` entries down, that state is remembered
/// as the last error state and, where it has an error goto, `r` is
/// `Some(d)`, the `d` entries above it are popped and the error symbol is
/// pushed with `attribute`, entering the error goto state; where it has
/// none, `r` is `None` and the stack keeps its entries.
pub open spec fn recovery_outcome<N, A>(
    old: ParseStackView<N, A>,
    new: ParseStackView<N, A>,
    viable: Set<u32>,
    error_goto: spec_fn(u32) -> Option<u32>,
    attribute: A,
    r: Option<usize>,
) -> bool {
    match viable_distance(state_numbers(old.states), old.last_error_state, viable, 0) {
        None => {
            &&& r is None
            &&& new.states == old.states
            &&& new.attributes == old.attributes
            &&& new.last_error_state == old.last_error_state
        },
        Some(d) => {
            &&& new.last_error_state == Some(old.states[old.states.len() - 1 - d].1)
            &&& match error_goto(old.states[old.states.len() - 1 - d].1) {
                None => r is None && new.states == old.states && new.attributes == old.attributes,
                Some(g) => {
                    &&& r == Some(d as usize)
                    &&& new.states == old.states.take(old.states.len() - d).push((Symbol::<N>::Error, g))
                    &&& new.attributes == old.attributes.take(old.attributes.len() - d).push(attribute)
                },
            }
        },
    }
}

/// Resumes parsing after an error: pops the stack down to the nearest state
/// (other than the one of the last recovery) that is viable for the token
/// tagged `tag`, and pushes the error symbol with `error_attribute`.
/// The viable states and the error goto state are those of the parser's
/// tables. Gives the number of entries popped, or `None` where no state is
/// viable or the viable state has no error goto.
pub fn recover_from_error<P: Parser>(
    parser: &P,
    stack: &mut ParseStack<P::NonTerminal, P::Attribute>,
    tag: u32,
    error_attribute: P::Attribute,
) -> (r: Option<usize>)
    requires
        old(stack).wf(),
    ensures
        final(stack).wf(),
        r is None ==> final(stack)@.states == old(stack)@.states && final(stack)@.attributes == old(stack)@.attributes,
        r matches Some(d) ==> d < old(stack)@.attributes.len() + 1
            && final(stack)@.states.drop_last() == old(stack)@.states.take(old(stack)@.states.len() - d)
            && final(stack)@.states.last().0 == Symbol::<P::NonTerminal>::Error
            && final(stack)@.attributes.drop_last() == old(stack)@.attributes.take(old(stack)@.attributes.len() - d)
            && final(stack)@.last_error_state == Some(old(stack)@.states[old(stack)@.states.len() - 1 - d].1),
        recovery_outcome(old(stack)@, final(stack)@, parser.viable_table(tag), (|s: u32| parser.error_goto_table(s)),
            error_attribute, r),
{
    let viable = parser.viable_error_recovery_states(tag);
    let ghost attribute = error_attribute;
    match stack.distance_to_viable_state(&viable) {
        None => {
            proof {
                assert(recovery_outcome(old(stack)@, stack@, viable@, (|s: u32| parser.error_goto_table(s)), attribute, None));
            }
            None
        },
        Some(distance) => {
            proof {
                lemma_viable_distance_bound(state_numbers(old(stack)@.states), old(stack)@.last_error_state, viable@, 0);
            }
            let below = stack.state_below(distance);
            match parser.error_goto_state(below) {
                None => {
                    proof {
                        assert(recovery_outcome(old(stack)@, stack@, viable@, (|s: u32| parser.error_goto_table(s)), attribute, None));
                    }
                    None
                },
                Some(next_state) => {
                    let _ = stack.pop_n(distance);
                    let ghost popped = stack@;
                    stack.push_error(next_state, error_attribute);
                    proof {
                        assert(stack@.states.drop_last() =~= popped.states);
                        assert(stack@.attributes.drop_last() =~= popped.attributes);
                        assert(stack@.states =~= old(stack)@.states.take(old(stack)@.states.len() - distance).push(
                            (Symbol::<P::NonTerminal>::Error, stack@.states.last().1)));
                        assert(stack@.attributes =~= old(stack)@.attributes.take(old(stack)@.attributes.len() - distance).push(attribute));
                        assert(recovery_outcome(old(stack)@, stack@, viable@, (|s: u32| parser.error_goto_table(s)), attribute, Some(distance)));
                    }
                    Some(distance)
                },
            }
        },
    }
}

proof fn lemma_viable_distance_bound(states: Seq<u32>, last: Option<u32>, viable: Set<u32>, from: nat)
    ensures
        viable_distance(states, last, viable, from) matches Some(d) ==> from <= d && d + 1 < states.len(),
    decreases states.len() - from,
{
    if from + 1 < states.len() {
        lemma_viable_distance_bound(states, last, viable, from + 1);
    }
}

} // verus!
