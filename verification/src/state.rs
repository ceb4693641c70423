//! The states of an LALR(1) parser under construction: their grammar items
//! with look ahead sets, their shift actions, and the resolution of the
//! conflicts between shifting and reducing.

use vstd::prelude::*;
use vstd::pervasive::VecAdditionalExecFns;

use crate::parser::ProcessedState;
use crate::symbol::Associativity;
use crate::terminal::{
    has_token, lemma_token_order, same_token, token_data, token_lt, Token,
    TokenSet, TokenView,
};

verus! {

/// A grammar item: a production with a dot in its right hand side, with the
/// properties of the production that conflict resolution reads.
#[derive(Debug, Clone, Copy, PartialEq, Eq, Structural)]
pub struct GrammarItemKey {
    /// The identifier of the production.
    pub production: u32,
    /// How many symbols of the right hand side lie before the dot.
    pub dot: usize,
    /// The length of the right hand side.
    pub rhs_len: usize,
    pub associativity: Associativity,
    pub precedence: u16,
    /// The production has a predicate.
    pub has_predicate: bool,
    /// The right hand side ends with the error symbol.
    pub has_error_recovery_tail: bool,
    /// The production is the start production.
    pub is_start: bool,
}

impl GrammarItemKey {
    /// The dot is at the end of the right hand side.
    pub open spec fn reducible(self) -> bool {
        self.dot >= self.rhs_len
    }

    /// Items are ordered by production, then by the position of the dot.
    pub open spec fn precedes(self, other: GrammarItemKey) -> bool {
        self.production < other.production || (self.production == other.production && self.dot
            < other.dot)
    }

    /// Items are the same when they are of one production with the dot at one place.
    pub open spec fn same_item(self, other: GrammarItemKey) -> bool {
        self.production == other.production && self.dot == other.dot
    }

    /// The item with the dot at the start of the production.
    pub fn new(
        production: u32,
        rhs_len: usize,
        associativity: Associativity,
        precedence: u16,
        has_predicate: bool,
        has_error_recovery_tail: bool,
        is_start: bool,
    ) -> (r: Self)
        ensures
            r == (GrammarItemKey {
                production,
                dot: 0,
                rhs_len,
                associativity,
                precedence,
                has_predicate,
                has_error_recovery_tail,
                is_start,
            }),
    {
        GrammarItemKey {
            production,
            dot: 0,
            rhs_len,
            associativity,
            precedence,
            has_predicate,
            has_error_recovery_tail,
            is_start,
        }
    }

    /// The item with the dot moved past the next symbol.
    pub fn shifted(&self) -> (r: Self)
        requires
            self.dot < self.rhs_len,
        ensures
            r == (GrammarItemKey { dot: (self.dot + 1) as usize, ..*self }),
    {
        GrammarItemKey { dot: self.dot + 1, ..*self }
    }

    pub fn is_reducible(&self) -> (r: bool)
        ensures
            r == self.reducible(),
    {
        self.dot >= self.rhs_len
    }

    /// Kernel items are those whose dot has moved, and the start item.
    pub fn is_kernel_item(&self) -> (r: bool)
        ensures
            r == (self.dot > 0 || self.is_start),
    {
        self.dot > 0 || self.is_start
    }

    pub fn is_closable_candidate(&self) -> (r: bool)
        ensures
            r == !self.reducible(),
    {
        self.dot < self.rhs_len
    }

    pub fn has_no_predicate(&self) -> (r: bool)
        ensures
            r == !self.has_predicate,
    {
        !self.has_predicate
    }

    pub fn has_reducible_error_recovery_tail(&self) -> (r: bool)
        ensures
            r == (self.reducible() && self.has_error_recovery_tail),
    {
        self.is_reducible() && self.has_error_recovery_tail
    }
}

/// The precedence of a token; the end token has none.
pub open spec fn token_precedence(t: TokenView) -> u16 {
    match t {
        TokenView::EndToken => 0,
        _ => token_data(t).precedence,
    }
}

/// A conflict between shifting a token of precedence `shift_precedence` and
/// reducing by `item` is resolved in favour of the shift: when the token
/// binds tighter, or as tightly and the production does not associate to
/// the left.
pub open spec fn shift_wins(shift_precedence: u16, item: GrammarItemKey) -> bool {
    shift_precedence > item.precedence || (shift_precedence == item.precedence
        && item.associativity != Associativity::Left)
}

/// A conflict resolved in favour of the shift only by default: precedences
/// and associativity do not decide it, and the production has no error
/// recovery tail.
pub open spec fn unresolved_shift_reduce(shift_precedence: u16, item: GrammarItemKey) -> bool {
    shift_precedence == item.precedence && item.associativity != Associativity::Left
        && !item.has_error_recovery_tail
}

/// `s1` is `s0` with its shift/reduce conflicts resolved: each look ahead
/// token of an item survives unless a shift of a like token wins against
/// the item; each shift survives only where it wins every conflict it takes
/// part in; and each conflict resolved only by default is recorded.
pub open spec fn shift_reduce_resolved(s0: ParserStateView, s1: ParserStateView) -> bool {
    &&& s1.items.len() == s0.items.len()
    &&& forall|b: int| 0 <= b < s0.items.len() ==> (#[trigger] s1.items[b]).0 == s0.items[b].0
    &&& forall|b: int, t: TokenView|
        0 <= b < s0.items.len() ==> (#[trigger] s1.items[b].1.contains(t) <==> s0.items[b].1.contains(t) && look_ahead_survives(s0, b, t))
    &&& forall|a: int| 0 <= a < s0.shifts.len() ==> (s1.shifts.contains(#[trigger] s0.shifts[a]) <==> shift_survives(s0, a))
    &&& forall|a: int, b: int| #[trigger] unresolved_sr_conflict(s0, a, b)
        ==> recorded_after(s1.shift_reduce_conflicts, s0.shift_reduce_conflicts.len() as int, sr_entry(s0, a, b))
}

/// Abstract value of a [`ParserState`].
pub struct ParserStateView {
    pub ident: u32,
    /// The grammar items of the state with their look ahead sets.
    pub items: Seq<(GrammarItemKey, Seq<TokenView>)>,
    /// The tokens that are shifted, with the states they lead to.
    pub shifts: Seq<(TokenView, u32)>,
    /// The non terminals (by number) with the states they lead to.
    pub gotos: Seq<(u32, u32)>,
    pub error_recovery_state: Option<u32>,
    pub processed_state: ProcessedState,
    /// Shift/reduce conflicts resolved only by default: the token, the state
    /// it shifts to, the item, and the item's look ahead set.
    pub shift_reduce_conflicts: Seq<(TokenView, u32, GrammarItemKey, Seq<TokenView>)>,
    /// Reduce/reduce conflicts resolved only by default: the two items and
    /// the tokens they shared.
    pub reduce_reduce_conflicts: Seq<(GrammarItemKey, GrammarItemKey, Seq<TokenView>)>,
}

/// A state of the parser under construction.
#[derive(Debug)]
pub struct ParserState {
    ident: u32,
    items: Vec<(GrammarItemKey, TokenSet)>,
    shift_list: Vec<(Token, u32)>,
    goto_table: Vec<(u32, u32)>,
    error_recovery_state: Option<u32>,
    processed_state: ProcessedState,
    shift_reduce_conflicts: Vec<(Token, u32, GrammarItemKey, TokenSet)>,
    reduce_reduce_conflicts: Vec<(GrammarItemKey, GrammarItemKey, TokenSet)>,
}

/// The abstract values of grammar items with look ahead sets.
pub open spec fn items_view(items: Seq<(GrammarItemKey, TokenSet)>) -> Seq<(GrammarItemKey, Seq<TokenView>)> {
    items.map_values(|e: (GrammarItemKey, TokenSet)| (e.0, e.1@))
}

/// The abstract values of shift actions.
pub open spec fn shifts_view(shifts: Seq<(Token, u32)>) -> Seq<(TokenView, u32)> {
    shifts.map_values(|e: (Token, u32)| (e.0@, e.1))
}

/// The items come in strictly increasing order.
pub open spec fn items_ordered(items: Seq<(GrammarItemKey, Seq<TokenView>)>) -> bool {
    forall|i: int, j: int| 0 <= i < j < items.len() ==> (#[trigger] items[i]).0.precedes((#[trigger] items[j]).0)
}

/// The shifted tokens come in strictly increasing order.
pub open spec fn shifts_ordered(shifts: Seq<(TokenView, u32)>) -> bool {
    forall|i: int, j: int| 0 <= i < j < shifts.len() ==> token_lt((#[trigger] shifts[i]).0, (#[trigger] shifts[j]).0)
}

/// No token is both shifted and in the look ahead set of a reducible item.
pub open spec fn free_of_shift_reduce_conflicts(s: ParserStateView) -> bool {
    forall|k: int, i: int|
        0 <= k < s.shifts.len() && 0 <= i < s.items.len() && (#[trigger] s.items[i]).0.reducible()
            ==> !has_token(s.items[i].1, (#[trigger] s.shifts[k]).0)
}

impl View for ParserState {
    type V = ParserStateView;

    closed spec fn view(&self) -> ParserStateView {
        ParserStateView {
            ident: self.ident,
            items: items_view(self.items@),
            shifts: shifts_view(self.shift_list@),
            gotos: self.goto_table@,
            error_recovery_state: self.error_recovery_state,
            processed_state: self.processed_state,
            shift_reduce_conflicts: self.shift_reduce_conflicts@.map_values(
                |c: (Token, u32, GrammarItemKey, TokenSet)| (c.0@, c.1, c.2, c.3@),
            ),
            reduce_reduce_conflicts: self.reduce_reduce_conflicts@.map_values(
                |c: (GrammarItemKey, GrammarItemKey, TokenSet)| (c.0, c.1, c.2@),
            ),
        }
    }
}

impl ParserState {
    /// The items are ordered, their look ahead sets well formed, and the
    /// shifted tokens ordered.
    pub closed spec fn wf(&self) -> bool {
        &&& items_ordered(self@.items)
        &&& forall|i: int| 0 <= i < self.items@.len() ==> (#[trigger] self.items@[i]).1.wf()
        &&& shifts_ordered(self@.shifts)
    }

    /// A new, unprocessed state with the given items.
    pub fn new(ident: u32, grammar_items: Vec<(GrammarItemKey, TokenSet)>) -> (r: Self)
        requires
            items_ordered(items_view(grammar_items@)),
            forall|i: int| 0 <= i < grammar_items@.len() ==> (#[trigger] grammar_items@[i]).1.wf(),
        ensures
            r.wf(),
            r@.ident == ident,
            r@.items == items_view(grammar_items@),
            r@.shifts == Seq::<(TokenView, u32)>::empty(),
            r@.gotos == Seq::<(u32, u32)>::empty(),
            r@.error_recovery_state == None::<u32>,
            r@.processed_state == ProcessedState::Unprocessed,
            r@.shift_reduce_conflicts.len() == 0,
            r@.reduce_reduce_conflicts.len() == 0,
    {
        let r = ParserState {
            ident,
            items: grammar_items,
            shift_list: Vec::new(),
            goto_table: Vec::new(),
            error_recovery_state: None,
            processed_state: ProcessedState::Unprocessed,
            shift_reduce_conflicts: Vec::new(),
            reduce_reduce_conflicts: Vec::new(),
        };
        proof {
            assert(r@.shifts =~= Seq::<(TokenView, u32)>::empty());
            assert(r@.gotos =~= Seq::<(u32, u32)>::empty());
        }
        r
    }

    pub fn ident(&self) -> (r: u32)
        ensures
            r == self@.ident,
    {
        self.ident
    }

    /// The grammar items of the state with their look ahead sets.
    pub fn grammar_items(&self) -> (r: &Vec<(GrammarItemKey, TokenSet)>)
        ensures
            items_view(r@) == self@.items,
            self.wf() ==> items_ordered(items_view(r@)) && forall|j: int| 0 <= j < r@.len() ==> (#[trigger] r@[j]).1.wf(),
    {
        &self.items
    }

    /// The tokens that the state shifts, with the states they lead to.
    pub fn shift_list(&self) -> (r: &Vec<(Token, u32)>)
        ensures
            shifts_view(r@) == self@.shifts,
    {
        &self.shift_list
    }

    /// The non terminals (by number) with the states they lead to.
    pub fn goto_table(&self) -> (r: &Vec<(u32, u32)>)
        ensures
            r@ == self@.gotos,
    {
        &self.goto_table
    }

    /// The shift/reduce conflicts that only a default resolved.
    pub fn shift_reduce_conflict_list(&self) -> (r: &Vec<(Token, u32, GrammarItemKey, TokenSet)>)
        ensures
            r@.map_values(|c: (Token, u32, GrammarItemKey, TokenSet)| (c.0@, c.1, c.2, c.3@)) == self@.shift_reduce_conflicts,
    {
        &self.shift_reduce_conflicts
    }

    /// The reduce/reduce conflicts that only a default resolved.
    pub fn reduce_reduce_conflict_list(&self) -> (r: &Vec<(GrammarItemKey, GrammarItemKey, TokenSet)>)
        ensures
            r@.map_values(|c: (GrammarItemKey, GrammarItemKey, TokenSet)| (c.0, c.1, c.2@)) == self@.reduce_reduce_conflicts,
    {
        &self.reduce_reduce_conflicts
    }

    /// The state that the error non terminal leads to, if any.
    pub fn error_recovery_state(&self) -> (r: Option<u32>)
        ensures
            r == self@.error_recovery_state,
    {
        self.error_recovery_state
    }

    pub fn is_processed(&self) -> (r: bool)
        ensures
            r == (self@.processed_state == ProcessedState::Processed),
    {
        match self.processed_state {
            ProcessedState::Processed => true,
            _ => false,
        }
    }

    pub fn is_unprocessed(&self) -> (r: bool)
        ensures
            r == (self@.processed_state == ProcessedState::Unprocessed),
    {
        match self.processed_state {
            ProcessedState::Unprocessed => true,
            _ => false,
        }
    }

    pub fn needs_reprocessing(&self) -> (r: bool)
        ensures
            r == (self@.processed_state == ProcessedState::NeedsReprocessing),
    {
        match self.processed_state {
            ProcessedState::NeedsReprocessing => true,
            _ => false,
        }
    }

    pub fn mark_as_processed(&mut self)
        requires
            old(self).wf(),
        ensures
            final(self).wf(),
            final(self)@ == (ParserStateView { processed_state: ProcessedState::Processed, ..old(self)@ }),
    {
        self.processed_state = ProcessedState::Processed;
    }

    pub fn add_goto(&mut self, non_terminal: u32, state: u32)
        requires
            old(self).wf(),
        ensures
            final(self).wf(),
            final(self)@ == (ParserStateView { gotos: old(self)@.gotos.push((non_terminal, state)), ..old(self)@ }),
    {
        self.goto_table.push((non_terminal, state));
    }

    pub fn set_error_recovery_state(&mut self, state: u32)
        requires
            old(self).wf(),
        ensures
            final(self).wf(),
            final(self)@ == (ParserStateView { error_recovery_state: Some(state), ..old(self)@ }),
    {
        self.error_recovery_state = Some(state);
    }

    pub fn shift_reduce_conflict_count(&self) -> (r: usize)
        ensures
            r == self@.shift_reduce_conflicts.len(),
    {
        self.shift_reduce_conflicts.len()
    }

    pub fn reduce_reduce_conflict_count(&self) -> (r: usize)
        ensures
            r == self@.reduce_reduce_conflicts.len(),
    {
        self.reduce_reduce_conflicts.len()
    }
}

/// Shifting the `a`th shifted token conflicts with reducing by the `b`th item.
pub open spec fn sr_conflict(s: ParserStateView, a: int, b: int) -> bool {
    &&& 0 <= a < s.shifts.len()
    &&& 0 <= b < s.items.len()
    &&& s.items[b].0.reducible()
    &&& has_token(s.items[b].1, s.shifts[a].0)
}

/// The `a`th shift action survives conflict resolution: every conflict it
/// takes part in is resolved in its favour.
pub open spec fn shift_survives(s: ParserStateView, a: int) -> bool {
    forall|b: int| #[trigger] sr_conflict(s, a, b) ==> shift_wins(token_precedence(s.shifts[a].0), s.items[b].0)
}

/// The token `t` stays in the look ahead set of the `b`th item: no shift of
/// it conflicts with the item and is resolved in favour of the shift.
pub open spec fn look_ahead_survives(s: ParserStateView, b: int, t: TokenView) -> bool {
    !exists|a: int| #[trigger] sr_conflict(s, a, b) && same_token(s.shifts[a].0, t) && shift_wins(
        token_precedence(s.shifts[a].0),
        s.items[b].0,
    )
}

/// A conflict between the `a`th shift and the `b`th item, resolved only by default.
pub open spec fn unresolved_sr_conflict(s: ParserStateView, a: int, b: int) -> bool {
    sr_conflict(s, a, b) && unresolved_shift_reduce(token_precedence(s.shifts[a].0), s.items[b].0)
}

/// The record of a conflict between the `a`th shift and the `b`th item.
pub open spec fn sr_entry(s: ParserStateView, a: int, b: int) -> (TokenView, u32, GrammarItemKey, Seq<TokenView>) {
    (s.shifts[a].0, s.shifts[a].1, s.items[b].0, s.items[b].1)
}

/// Records of distinct conflicts differ: shifted tokens and items are distinct.
proof fn lemma_sr_entry_distinct(s: ParserStateView, a1: int, b1: int, a2: int, b2: int)
    requires
        shifts_ordered(s.shifts),
        items_ordered(s.items),
        0 <= a1 < s.shifts.len(),
        0 <= a2 < s.shifts.len(),
        0 <= b1 < s.items.len(),
        0 <= b2 < s.items.len(),
        a1 != a2 || b1 != b2,
    ensures
        sr_entry(s, a1, b1) != sr_entry(s, a2, b2),
{
    if a1 < a2 {
        assert(token_lt(s.shifts[a1].0, s.shifts[a2].0));
        crate::terminal::lemma_token_order(s.shifts[a1].0, s.shifts[a1].0, s.shifts[a1].0);
    } else if a2 < a1 {
        assert(token_lt(s.shifts[a2].0, s.shifts[a1].0));
        crate::terminal::lemma_token_order(s.shifts[a2].0, s.shifts[a2].0, s.shifts[a2].0);
    } else if b1 < b2 {
        assert(s.items[b1].0.precedes(s.items[b2].0));
    } else {
        assert(s.items[b2].0.precedes(s.items[b1].0));
    }
}

/// `e` records a conflict of `s` that is resolved only by default.
pub open spec fn is_unresolved_entry(s: ParserStateView, e: (TokenView, u32, GrammarItemKey, Seq<TokenView>)) -> bool {
    exists|a: int, b: int| #[trigger] unresolved_sr_conflict(s, a, b) && e == sr_entry(s, a, b)
}

/// `recs` holds `e` at or after position `from`.
pub open spec fn recorded_after<E>(recs: Seq<E>, from: int, e: E) -> bool {
    exists|m: int| from <= m < recs.len() && recs[m] == e
}

proof fn lemma_recorded_push<E>(recs: Seq<E>, from: int, e: E, r: E)
    requires
        0 <= from,
        recorded_after(recs, from, r),
    ensures
        recorded_after(recs.push(e), from, r),
{
    let m = choose|m: int| from <= m < recs.len() && recs[m] == r;
    assert(recs.push(e)[m] == recs[m]);
}

proof fn lemma_recorded_last<E>(recs: Seq<E>, from: int, e: E)
    requires
        0 <= from <= recs.len(),
    ensures
        recorded_after(recs.push(e), from, e),
{
    assert(recs.push(e)[recs.len() as int] == e);
}

impl ParserState {
    /// All pairs of a shift action and a reducible item that conflict.
    fn collect_shift_reduce_conflicts(&self) -> (r: Vec<(usize, usize)>)
        requires
            self.wf(),
        ensures
            forall|m: int| 0 <= m < r@.len() ==> sr_conflict(self@, (#[trigger] r@[m]).0 as int, r@[m].1 as int),
            forall|a: int, b: int| #[trigger] sr_conflict(self@, a, b) ==> r@.contains((a as usize, b as usize)),
            forall|i: int, j: int| 0 <= i < j < r@.len() ==> #[trigger] r@[i] != #[trigger] r@[j],
    {
        let n_s = self.shift_list.len();
        let n_i = self.items.len();
        let mut r: Vec<(usize, usize)> = Vec::new();
        let mut a: usize = 0;
        while a < n_s
            invariant
                self.wf(),
                n_s == self@.shifts.len(),
                n_i == self@.items.len(),
                a <= n_s,
                forall|m: int| 0 <= m < r@.len() ==> sr_conflict(self@, (#[trigger] r@[m]).0 as int, r@[m].1 as int),
                forall|x: int, b: int| 0 <= x < a && #[trigger] sr_conflict(self@, x, b) ==> r@.contains((x as usize, b as usize)),
                forall|m: int| 0 <= m < r@.len() ==> (#[trigger] r@[m]).0 < a,
                forall|i: int, j: int| 0 <= i < j < r@.len() ==> #[trigger] r@[i] != #[trigger] r@[j],
            decreases n_s - a,
        {
            let mut b: usize = 0;
            while b < n_i
                invariant
                    self.wf(),
                    n_s == self@.shifts.len(),
                    n_i == self@.items.len(),
                    a < n_s,
                    b <= n_i,
                    forall|m: int| 0 <= m < r@.len() ==> sr_conflict(self@, (#[trigger] r@[m]).0 as int, r@[m].1 as int),
                    forall|x: int, y: int| 0 <= x < a && #[trigger] sr_conflict(self@, x, y) ==> r@.contains((x as usize, y as usize)),
                    forall|y: int| 0 <= y < b && #[trigger] sr_conflict(self@, a as int, y) ==> r@.contains((a, y as usize)),
                    forall|m: int| 0 <= m < r@.len() ==> (#[trigger] r@[m]).0 < a || (r@[m].0 == a && r@[m].1 < b),
                    forall|i: int, j: int| 0 <= i < j < r@.len() ==> #[trigger] r@[i] != #[trigger] r@[j],
                decreases n_i - b,
            {
                proof {
                    assert(self@.items[b as int] == (self.items@[b as int].0, self.items@[b as int].1@));
                    assert(self@.shifts[a as int] == (self.shift_list@[a as int].0@, self.shift_list@[a as int].1));
                    assert(self.items@[b as int].1.wf());
                }
                if self.items[b].0.is_reducible() && self.items[b].1.contains(&self.shift_list[a].0) {
                    let ghost before = r@;
                    r.push((a, b));
                    proof {
                        assert forall|m: int| 0 <= m < before.len() implies r@[m] == before[m] by {}
                        assert(r@[before.len() as int] == (a, b));
                        assert forall|i: int, j: int| 0 <= i < j < r@.len() implies #[trigger] r@[i] != #[trigger] r@[j] by {
                            if j == before.len() {
                                assert(r@[i] == before[i]);
                            } else {
                                assert(r@[i] == before[i] && r@[j] == before[j]);
                            }
                        }
                    }
                }
                b = b + 1;
            }
            a = a + 1;
        }
        r
    }
}

/// Copies of grammar items with their look ahead sets.
fn snapshot_items(items: &Vec<(GrammarItemKey, TokenSet)>) -> (r: Vec<(GrammarItemKey, TokenSet)>)
    ensures
        items_view(r@) == items_view(items@),
{
    let mut r: Vec<(GrammarItemKey, TokenSet)> = Vec::new();
    let mut i: usize = 0;
    while i < items.len()
        invariant
            i <= items@.len(),
            r@.len() == i,
            forall|j: int| 0 <= j < i ==> #[trigger] r@[j].0 == items@[j].0 && r@[j].1@ == items@[j].1@,
        decreases items@.len() - i,
    {
        r.push((items[i].0, items[i].1.snapshot()));
        i = i + 1;
    }
    proof {
        assert(items_view(r@) =~= items_view(items@));
    }
    r
}

impl ParserState {
    /// Removes `token` from the look ahead set of the `b`th item.
    fn drop_look_ahead(&mut self, b: usize, token: &Token)
        requires
            old(self).wf(),
            b < old(self)@.items.len(),
        ensures
            final(self).wf(),
            final(self)@.ident == old(self)@.ident,
            final(self)@.shifts == old(self)@.shifts,
            final(self)@.gotos == old(self)@.gotos,
            final(self)@.error_recovery_state == old(self)@.error_recovery_state,
            final(self)@.processed_state == old(self)@.processed_state,
            final(self)@.shift_reduce_conflicts == old(self)@.shift_reduce_conflicts,
            final(self)@.reduce_reduce_conflicts == old(self)@.reduce_reduce_conflicts,
            final(self)@.items.len() == old(self)@.items.len(),
            forall|i: int| 0 <= i < old(self)@.items.len() ==> (#[trigger] final(self)@.items[i]).0 == old(self)@.items[i].0,
            forall|i: int| 0 <= i < old(self)@.items.len() && i != b ==> (#[trigger] final(self)@.items[i]) == old(self)@.items[i],
            forall|t: TokenView| #[trigger] final(self)@.items[b as int].1.contains(t)
                <==> old(self)@.items[b as int].1.contains(t) && !same_token(t, token@),
    {
        proof {
            assert(self.items@[b as int].1.wf());
        }
        let key = self.items[b].0;
        let mut set = self.items[b].1.snapshot();
        set.remove(token);
        let ghost before_items = self.items@;
        self.items.set(b, (key, set));
        proof {
            assert forall|i: int| 0 <= i < self.items@.len() implies (#[trigger] self.items@[i]).1.wf() by {
                if i != b {
                    assert(self.items@[i] == before_items[i]);
                }
            }
            assert forall|i: int| 0 <= i < self@.items.len() implies (#[trigger] self@.items[i]).0 == old(self)@.items[i].0 by {
                assert(old(self)@.items[i] == (before_items[i].0, before_items[i].1@));
                assert(self@.items[i] == (self.items@[i].0, self.items@[i].1@));
                if i != b {
                    assert(self.items@[i] == before_items[i]);
                }
            }
            assert forall|i: int| 0 <= i < old(self)@.items.len() && i != b implies (#[trigger] self@.items[i]) == old(self)@.items[i] by {
                assert(old(self)@.items[i] == (before_items[i].0, before_items[i].1@));
                assert(self@.items[i] == (self.items@[i].0, self.items@[i].1@));
                assert(self.items@[i] == before_items[i]);
            }
            assert forall|i: int, j: int| 0 <= i < j < self@.items.len() implies (#[trigger] self@.items[i]).0.precedes((#[trigger] self@.items[j]).0) by {
                assert(self@.items[i].0 == old(self)@.items[i].0);
                assert(self@.items[j].0 == old(self)@.items[j].0);
            }
            assert(self@.items[b as int] == (self.items@[b as int].0, self.items@[b as int].1@));
        }
    }
}

impl ParserState {
    /// Resolves each conflict between shifting a token and reducing by an
    /// item whose look ahead set holds it: by precedence, then by
    /// associativity (left favours the reduction), then in favour of an item
    /// with an error recovery tail, and otherwise in favour of the shift,
    /// recording the conflict as unresolved. Gives the number of unresolved
    /// conflicts recorded in the state.
    #[verifier::rlimit(80)]
    #[verifier::spinoff_prover]
    pub fn resolve_shift_reduce_conflicts(&mut self) -> (r: usize)
        requires
            old(self).wf(),
        ensures
            final(self).wf(),
            r == final(self)@.shift_reduce_conflicts.len(),
            final(self)@.ident == old(self)@.ident,
            final(self)@.gotos == old(self)@.gotos,
            final(self)@.error_recovery_state == old(self)@.error_recovery_state,
            final(self)@.processed_state == old(self)@.processed_state,
            final(self)@.reduce_reduce_conflicts == old(self)@.reduce_reduce_conflicts,
            final(self)@.items.len() == old(self)@.items.len(),
            forall|b: int| 0 <= b < old(self)@.items.len() ==> (#[trigger] final(self)@.items[b]).0 == old(self)@.items[b].0,
            forall|b: int, t: TokenView|
                0 <= b < old(self)@.items.len() ==> (#[trigger] final(self)@.items[b].1.contains(t)
                    <==> old(self)@.items[b].1.contains(t) && look_ahead_survives(old(self)@, b, t)),
            forall|a: int|
                0 <= a < old(self)@.shifts.len() ==> (final(self)@.shifts.contains(#[trigger] old(self)@.shifts[a])
                    <==> shift_survives(old(self)@, a)),
            forall|x: (TokenView, u32)| #[trigger] final(self)@.shifts.contains(x) ==> old(self)@.shifts.contains(x),
            free_of_shift_reduce_conflicts(final(self)@),
            final(self)@.shift_reduce_conflicts.len() >= old(self)@.shift_reduce_conflicts.len(),
            final(self)@.shift_reduce_conflicts.take(old(self)@.shift_reduce_conflicts.len() as int)
                == old(self)@.shift_reduce_conflicts,
            forall|m: int|
                old(self)@.shift_reduce_conflicts.len() <= m < final(self)@.shift_reduce_conflicts.len()
                    ==> is_unresolved_entry(old(self)@, #[trigger] final(self)@.shift_reduce_conflicts[m]),
            forall|a: int, b: int| #[trigger] unresolved_sr_conflict(old(self)@, a, b)
                ==> recorded_after(final(self)@.shift_reduce_conflicts, old(self)@.shift_reduce_conflicts.len() as int, sr_entry(old(self)@, a, b)),
            forall|m1: int, m2: int| old(self)@.shift_reduce_conflicts.len() <= m1 < m2 < final(self)@.shift_reduce_conflicts.len()
                ==> #[trigger] final(self)@.shift_reduce_conflicts[m1] != #[trigger] final(self)@.shift_reduce_conflicts[m2],
            shift_reduce_resolved(old(self)@, final(self)@),
    {
        let ghost s0 = self@;
        let conflicts = self.collect_shift_reduce_conflicts();
        let items0 = snapshot_items(&self.items);
        let n_s = self.shift_list.len();
        let mut dropped: Vec<bool> = Vec::new();
        while dropped.len() < n_s
            invariant
                dropped@.len() <= n_s,
                forall|a: int| 0 <= a < dropped@.len() ==> !dropped@[a],
            decreases n_s - dropped@.len(),
        {
            dropped.push(false);
        }
        let mut k: usize = 0;
        while k < conflicts.len()
            invariant
                k <= conflicts@.len(),
                forall|m: int| 0 <= m < conflicts@.len() ==> sr_conflict(s0, (#[trigger] conflicts@[m]).0 as int, conflicts@[m].1 as int),
                items_view(items0@) == s0.items,
                items_ordered(s0.items),
                n_s == s0.shifts.len(),
                dropped@.len() == n_s,
                self.wf(),
                self@.ident == s0.ident,
                self@.gotos == s0.gotos,
                self@.error_recovery_state == s0.error_recovery_state,
                self@.processed_state == s0.processed_state,
                self@.reduce_reduce_conflicts == s0.reduce_reduce_conflicts,
                self@.shifts == s0.shifts,
                self@.items.len() == s0.items.len(),
                forall|b: int| 0 <= b < s0.items.len() ==> (#[trigger] self@.items[b]).0 == s0.items[b].0,
                forall|a: int| 0 <= a < n_s ==> (#[trigger] dropped@[a] <==> exists|j: int| 0 <= j < k && conflicts@[j].0 == a
                    && !shift_wins(token_precedence(s0.shifts[a].0), #[trigger] s0.items[conflicts@[j].1 as int].0)),
                forall|b: int, t: TokenView| 0 <= b < s0.items.len() ==> (#[trigger] self@.items[b].1.contains(t)
                    <==> s0.items[b].1.contains(t) && !exists|j: int| 0 <= j < k && #[trigger] conflicts@[j].1 == b
                        && same_token(s0.shifts[conflicts@[j].0 as int].0, t)
                        && shift_wins(token_precedence(s0.shifts[conflicts@[j].0 as int].0), s0.items[b].0)),
                self@.shift_reduce_conflicts.len() >= s0.shift_reduce_conflicts.len(),
                self@.shift_reduce_conflicts.take(s0.shift_reduce_conflicts.len() as int) == s0.shift_reduce_conflicts,
                forall|m: int|
                    s0.shift_reduce_conflicts.len() <= m < self@.shift_reduce_conflicts.len()
                    ==> is_unresolved_entry(s0, #[trigger] self@.shift_reduce_conflicts[m]),
                forall|j: int| 0 <= j < k && unresolved_sr_conflict(s0, (#[trigger] conflicts@[j]).0 as int, conflicts@[j].1 as int)
                    ==> recorded_after(self@.shift_reduce_conflicts, s0.shift_reduce_conflicts.len() as int, sr_entry(s0, conflicts@[j].0 as int, conflicts@[j].1 as int)),
                forall|i: int, j: int| 0 <= i < j < conflicts@.len() ==> #[trigger] conflicts@[i] != #[trigger] conflicts@[j],
                shifts_ordered(s0.shifts),
                forall|m: int| s0.shift_reduce_conflicts.len() <= m < self@.shift_reduce_conflicts.len()
                    ==> exists|j: int| 0 <= j < k && #[trigger] self@.shift_reduce_conflicts[m] == sr_entry(s0, conflicts@[j].0 as int, conflicts@[j].1 as int),
                forall|m1: int, m2: int| s0.shift_reduce_conflicts.len() <= m1 < m2 < self@.shift_reduce_conflicts.len()
                    ==> #[trigger] self@.shift_reduce_conflicts[m1] != #[trigger] self@.shift_reduce_conflicts[m2],
            decreases conflicts@.len() - k,
        {
            let (a, b) = conflicts[k];
            let ghost before_view = self@;
            let ghost before_dropped = dropped@;
            proof {
                assert(sr_conflict(s0, a as int, b as int));
                assert(self@.shifts[a as int] == (self.shift_list@[a as int].0@, self.shift_list@[a as int].1));
                assert(self@.items[b as int] == (self.items@[b as int].0, self.items@[b as int].1@));
                assert(items_view(items0@)[b as int] == (items0@[b as int].0, items0@[b as int].1@));
            }
            let precedence = self.shift_list[a].0.precedence();
            let key = self.items[b].0;
            let ghost wins = shift_wins(token_precedence(s0.shifts[a as int].0), s0.items[b as int].0);
            if precedence < key.precedence || (precedence == key.precedence && key.associativity == Associativity::Left) {
                dropped.set(a, true);
                proof {
                    assert(!wins);
                    assert(self@ == before_view);
                }
            } else {
                let token = self.shift_list[a].0.snapshot();
                self.drop_look_ahead(b, &token);
                proof {
                    assert(wins);
                    assert(dropped@ == before_dropped);
                }
                if key.has_error_recovery_tail || precedence != key.precedence {
                    proof {
                        assert(self@.shift_reduce_conflicts == before_view.shift_reduce_conflicts);
                        assert(!unresolved_sr_conflict(s0, a as int, b as int));
                    }
                } else {
                    let record = (token, self.shift_list[a].1, key, items0[b].1.snapshot());
                    let ghost before_sr = self@.shift_reduce_conflicts;
                    let ghost entry = (s0.shifts[a as int].0, s0.shifts[a as int].1, s0.items[b as int].0, s0.items[b as int].1);
                    self.shift_reduce_conflicts.push(record);
                    proof {
                        assert(self@.shift_reduce_conflicts =~= before_sr.push(entry));
                        assert(unresolved_sr_conflict(s0, a as int, b as int));
                        assert(entry == sr_entry(s0, a as int, b as int));
                        assert(is_unresolved_entry(s0, entry));
                        assert(self@.shift_reduce_conflicts.take(s0.shift_reduce_conflicts.len() as int)
                            =~= before_sr.take(s0.shift_reduce_conflicts.len() as int));
                        assert forall|m: int|
                            s0.shift_reduce_conflicts.len() <= m < self@.shift_reduce_conflicts.len()
                            implies is_unresolved_entry(s0, #[trigger] self@.shift_reduce_conflicts[m]) by {
                            if m < before_sr.len() {
                                assert(self@.shift_reduce_conflicts[m] == before_sr[m]);
                            } else {
                                assert(self@.shift_reduce_conflicts[m] == entry);
                            }
                        }
                        assert forall|m: int| s0.shift_reduce_conflicts.len() <= m < self@.shift_reduce_conflicts.len()
                            implies exists|j: int| 0 <= j < k + 1 && #[trigger] self@.shift_reduce_conflicts[m] == sr_entry(s0, conflicts@[j].0 as int, conflicts@[j].1 as int) by {
                            if m < before_sr.len() {
                                assert(self@.shift_reduce_conflicts[m] == before_sr[m]);
                                let j = choose|j: int| 0 <= j < k && #[trigger] before_sr[m] == sr_entry(s0, conflicts@[j].0 as int, conflicts@[j].1 as int);
                            } else {
                                assert(self@.shift_reduce_conflicts[m] == sr_entry(s0, conflicts@[k as int].0 as int, conflicts@[k as int].1 as int));
                            }
                        }
                        assert forall|m1: int, m2: int| s0.shift_reduce_conflicts.len() <= m1 < m2 < self@.shift_reduce_conflicts.len()
                            implies #[trigger] self@.shift_reduce_conflicts[m1] != #[trigger] self@.shift_reduce_conflicts[m2] by {
                            assert(self@.shift_reduce_conflicts[m1] == before_sr[m1]);
                            if m2 < before_sr.len() {
                                assert(self@.shift_reduce_conflicts[m2] == before_sr[m2]);
                            } else {
                                let j = choose|j: int| 0 <= j < k && #[trigger] before_sr[m1] == sr_entry(s0, conflicts@[j].0 as int, conflicts@[j].1 as int);
                                assert(conflicts@[j] != conflicts@[k as int]);
                                assert(sr_conflict(s0, conflicts@[j].0 as int, conflicts@[j].1 as int));
                                lemma_sr_entry_distinct(s0, conflicts@[j].0 as int, conflicts@[j].1 as int, a as int, b as int);
                            }
                        }
                        assert forall|j: int| 0 <= j < k + 1 && unresolved_sr_conflict(s0, (#[trigger] conflicts@[j]).0 as int, conflicts@[j].1 as int)
                            implies recorded_after(self@.shift_reduce_conflicts, s0.shift_reduce_conflicts.len() as int, sr_entry(s0, conflicts@[j].0 as int, conflicts@[j].1 as int)) by {
                            if j < k {
                                lemma_recorded_push(before_sr, s0.shift_reduce_conflicts.len() as int, entry, sr_entry(s0, conflicts@[j].0 as int, conflicts@[j].1 as int));
                            } else {
                                lemma_recorded_last(before_sr, s0.shift_reduce_conflicts.len() as int, entry);
                            }
                        }
                    }
                }
            }
            proof {
                assert forall|x: int| 0 <= x < n_s implies (#[trigger] dropped@[x] <==> exists|j: int| 0 <= j < k + 1 && conflicts@[j].0 == x
                    && !shift_wins(token_precedence(s0.shifts[x].0), #[trigger] s0.items[conflicts@[j].1 as int].0)) by {
                    assert(before_dropped[x] <==> exists|j: int| 0 <= j < k && conflicts@[j].0 == x
                        && !shift_wins(token_precedence(s0.shifts[x].0), #[trigger] s0.items[conflicts@[j].1 as int].0));
                    if x == a && !wins {
                        assert(conflicts@[k as int].0 == x && !shift_wins(token_precedence(s0.shifts[x].0), s0.items[conflicts@[k as int].1 as int].0));
                    }
                }
                assert forall|i: int, t: TokenView| 0 <= i < s0.items.len() implies (#[trigger] self@.items[i].1.contains(t)
                    <==> s0.items[i].1.contains(t) && !exists|j: int| 0 <= j < k + 1 && #[trigger] conflicts@[j].1 == i
                        && same_token(s0.shifts[conflicts@[j].0 as int].0, t)
                        && shift_wins(token_precedence(s0.shifts[conflicts@[j].0 as int].0), s0.items[i].0)) by {
                    assert(before_view.items[i].1.contains(t) <==> s0.items[i].1.contains(t) && !exists|j: int| 0 <= j < k && #[trigger] conflicts@[j].1 == i
                        && same_token(s0.shifts[conflicts@[j].0 as int].0, t)
                        && shift_wins(token_precedence(s0.shifts[conflicts@[j].0 as int].0), s0.items[i].0));
                    if i == b && wins && same_token(s0.shifts[a as int].0, t) {
                        assert(conflicts@[k as int].1 == i);
                    }
                }
            }
            k = k + 1;
        }
        let ghost s_mid = self@;
        let mut kept: Vec<(Token, u32)> = Vec::new();
        let mut a: usize = 0;
        while a < n_s
            invariant
                self@ == s_mid,
                a <= n_s,
                n_s == self@.shifts.len(),
                dropped@.len() == n_s,
                forall|x: (TokenView, u32)| shifts_view(kept@).contains(x) ==> exists|c: int| 0 <= c < a && !dropped@[c] && self@.shifts[c] == x,
                forall|c: int| 0 <= c < a && !dropped@[c] ==> shifts_view(kept@).contains(#[trigger] self@.shifts[c]),
                shifts_ordered(self@.shifts),
                forall|i: int, j: int| 0 <= i < j < kept@.len() ==> token_lt((#[trigger] shifts_view(kept@)[i]).0, (#[trigger] shifts_view(kept@)[j]).0),
            decreases n_s - a,
        {
            if !dropped[a] {
                proof {
                    assert(self@.shifts[a as int] == (self.shift_list@[a as int].0@, self.shift_list@[a as int].1));
                }
                let ghost before = shifts_view(kept@);
                kept.push((self.shift_list[a].0.snapshot(), self.shift_list[a].1));
                proof {
                    let v = shifts_view(kept@);
                    assert(v =~= before.push(self@.shifts[a as int]));
                    assert forall|x: (TokenView, u32)| v.contains(x) implies exists|c: int| 0 <= c < a + 1 && !dropped@[c] && self@.shifts[c] == x by {
                        let i = choose|i: int| 0 <= i < v.len() && v[i] == x;
                        if i < before.len() {
                            assert(before.contains(x));
                        }
                    }
                    assert forall|c: int| 0 <= c < a + 1 && !dropped@[c] implies v.contains(#[trigger] self@.shifts[c]) by {
                        if c < a {
                            assert(before.contains(self@.shifts[c]));
                            let i = choose|i: int| 0 <= i < before.len() && before[i] == self@.shifts[c];
                            assert(v[i] == self@.shifts[c]);
                        } else {
                            assert(v[before.len() as int] == self@.shifts[c]);
                        }
                    }
                    assert forall|i: int, j: int| 0 <= i < j < v.len() implies token_lt((#[trigger] v[i]).0, (#[trigger] v[j]).0) by {
                        if j == before.len() {
                            assert(v[i] == before[i]);
                            assert(before.contains(before[i]));
                            let c = choose|c: int| 0 <= c < a && !dropped@[c] && self@.shifts[c] == before[i];
                        } else {
                            assert(v[i] == before[i] && v[j] == before[j]);
                        }
                    }
                }
            }
            a = a + 1;
        }
        self.shift_list = kept;
        proof {
            let sf = self@;
            assert(sf.shifts == shifts_view(kept@));
            assert(sf.items == s_mid.items);
            assert forall|kk: int, i: int|
                0 <= kk < sf.shifts.len() && 0 <= i < sf.items.len() && (#[trigger] sf.items[i]).0.reducible()
                implies !has_token(sf.items[i].1, (#[trigger] sf.shifts[kk]).0) by {
                assert(sf.shifts.contains(sf.shifts[kk]));
                let c = choose|c: int| 0 <= c < n_s && !dropped@[c] && s_mid.shifts[c] == sf.shifts[kk];
                if has_token(sf.items[i].1, s0.shifts[c].0) {
                    let w = choose|w: int| 0 <= w < sf.items[i].1.len() && same_token(#[trigger] sf.items[i].1[w], s0.shifts[c].0);
                    let t = sf.items[i].1[w];
                    assert(sf.items[i].1.contains(t));
                    assert(s0.items[i].1.contains(t));
                    let w0 = choose|w0: int| 0 <= w0 < s0.items[i].1.len() && s0.items[i].1[w0] == t;
                    assert(same_token(s0.items[i].1[w0], s0.shifts[c].0));
                    assert(sr_conflict(s0, c, i));
                    assert(conflicts@.contains((c as usize, i as usize)));
                    let j = choose|j: int| 0 <= j < conflicts@.len() && conflicts@[j] == (c as usize, i as usize);
                    assert(shift_wins(token_precedence(s0.shifts[c].0), s0.items[conflicts@[j].1 as int].0));
                    lemma_token_order(t, s0.shifts[c].0, t);
                    assert(same_token(s0.shifts[conflicts@[j].0 as int].0, t));
                    assert(sr_conflict(s0, c, i));
                    assert(0 <= i < s0.items.len());
                    assert(conflicts@[j].1 as int == i);
                    assert(!s_mid.items[i].1.contains(t));
                    assert(false);
                }
            }
            assert(sf.shift_reduce_conflicts == s_mid.shift_reduce_conflicts);
            assert forall|x: int, y: int| #[trigger] unresolved_sr_conflict(s0, x, y)
                implies recorded_after(sf.shift_reduce_conflicts, s0.shift_reduce_conflicts.len() as int, sr_entry(s0, x, y)) by {
                assert(sr_conflict(s0, x, y));
                assert(conflicts@.contains((x as usize, y as usize)));
                let j = choose|j: int| 0 <= j < conflicts@.len() && conflicts@[j] == (x as usize, y as usize);
                assert(unresolved_sr_conflict(s0, conflicts@[j].0 as int, conflicts@[j].1 as int));
            }
        }
        self.shift_reduce_conflicts.len()
    }
}

/// No token in the look ahead set `a` is also in `b`.
pub open spec fn disjoint_look_aheads(a: Seq<TokenView>, b: Seq<TokenView>) -> bool {
    forall|t: TokenView| #[trigger] a.contains(t) ==> !has_token(b, t)
}

/// No two reducible items share a look ahead token, unless the first of the
/// two has a predicate.
pub open spec fn free_of_reduce_reduce_conflicts(s: ParserStateView) -> bool {
    forall|x: int, y: int|
        0 <= x < y < s.items.len() && (#[trigger] s.items[x]).0.reducible() && (#[trigger] s.items[y]).0.reducible()
            && !s.items[x].0.has_predicate ==> disjoint_look_aheads(s.items[x].1, s.items[y].1)
}

/// Each reduce/reduce conflict recorded from position `from` on is between
/// two items of `items`.
pub open spec fn rr_records_items(
    rr: Seq<(GrammarItemKey, GrammarItemKey, Seq<TokenView>)>,
    from: int,
    items: Seq<(GrammarItemKey, Seq<TokenView>)>,
) -> bool {
    forall|m: int| from <= m < rr.len() ==> (exists|b: int| 0 <= b < items.len() && items[b].0 == (#[trigger] rr[m]).0)
        && (exists|b: int| 0 <= b < items.len() && items[b].0 == rr[m].1)
}

/// The number of reducible items of `items`.
pub open spec fn reducible_count(items: Seq<(GrammarItemKey, Seq<TokenView>)>) -> nat
    decreases items.len(),
{
    if items.len() == 0 {
        0
    } else {
        reducible_count(items.drop_last()) + if items.last().0.reducible() { 1nat } else { 0nat }
    }
}

/// The look ahead sets of `t` are those of `s`, less some tokens; a token
/// leaves the set of a reducible item only where another reducible item of
/// `s` holds it.
pub open spec fn look_aheads_trimmed(s: ParserStateView, t: ParserStateView) -> bool {
    &&& t.items.len() == s.items.len()
    &&& forall|b: int| 0 <= b < s.items.len() ==> (#[trigger] t.items[b]).0 == s.items[b].0
    &&& forall|b: int, x: TokenView| 0 <= b < s.items.len() && #[trigger] t.items[b].1.contains(x) ==> s.items[b].1.contains(x)
    &&& forall|b: int, x: TokenView| 0 <= b < s.items.len() && s.items[b].1.contains(x) && !(#[trigger] t.items[b].1.contains(x))
        ==> s.items[b].0.reducible() && exists|c: int| 0 <= c < s.items.len() && c != b && (#[trigger] s.items[c]).0.reducible() && has_token(s.items[c].1, x)
}

/// Resolving a reduce/reduce conflict between the `b1`th and the `b2`th
/// items of `s`: where both are reducible, the first has no predicate and
/// their look ahead sets share tokens, the first loses the shared tokens if
/// it has an error recovery tail; otherwise the second loses them, and where
/// the second has no error recovery tail either, the conflict is recorded
/// as unresolved (in favour of the earlier production).
pub open spec fn rr_pair_resolved(s: ParserStateView, b1: int, b2: int) -> ParserStateView {
    let k1 = s.items[b1].0;
    let k2 = s.items[b2].0;
    let shared = s.items[b1].1.filter(crate::terminal::in_tokens(s.items[b2].1));
    if k1.reducible() && !k1.has_predicate && k2.reducible() && shared.len() > 0 {
        if k1.has_error_recovery_tail {
            ParserStateView {
                items: s.items.update(b1, (k1, s.items[b1].1.filter(crate::terminal::not_in_tokens(shared)))),
                ..s
            }
        } else if k2.has_error_recovery_tail {
            ParserStateView {
                items: s.items.update(b2, (k2, s.items[b2].1.filter(crate::terminal::not_in_tokens(shared)))),
                ..s
            }
        } else {
            ParserStateView {
                items: s.items.update(b2, (k2, s.items[b2].1.filter(crate::terminal::not_in_tokens(shared)))),
                reduce_reduce_conflicts: s.reduce_reduce_conflicts.push((k1, k2, shared)),
                ..s
            }
        }
    } else {
        s
    }
}

/// Resolving the reduce/reduce conflicts of `s`, which has `n` items, pair
/// by pair in the order of the items, from the pair (`b1`, `b2`) on.
pub open spec fn rr_resolved_from(s: ParserStateView, n: int, b1: int, b2: int) -> ParserStateView
    decreases n - b1, n - b2,
{
    if b1 >= n || b1 < 0 {
        s
    } else if b2 >= n || b2 <= b1 {
        rr_resolved_from(s, n, b1 + 1, b1 + 2)
    } else {
        rr_resolved_from(rr_pair_resolved(s, b1, b2), n, b1, b2 + 1)
    }
}

/// Resolving all the reduce/reduce conflicts of `s`.
pub open spec fn rr_resolved(s: ParserStateView) -> ParserStateView {
    rr_resolved_from(s, s.items.len() as int, 0, 1)
}

/// How a conflict between shifting a token and reducing by a reducible item
/// whose look ahead set holds it is resolved, for any state `s0` and its
/// resolution `s1`: where the token binds less tightly than the production,
/// or as tightly and the production associates to the left, the shift is
/// dropped; where the token binds more tightly, or as tightly and the
/// production associates to the right or not at all, the token leaves the
/// item's look ahead set, and the shift stands if it wins in this way
/// against every item it conflicts with; a conflict at equal precedence
/// with a production that does not associate to the left and has no error
/// recovery tail is recorded as resolved only by default.
pub proof fn law_shift_reduce_resolution(s0: ParserStateView, s1: ParserStateView, a: int, b: int)
    requires
        shift_reduce_resolved(s0, s1),
        0 <= a < s0.shifts.len(),
        0 <= b < s0.items.len(),
        s0.items[b].0.reducible(),
        has_token(s0.items[b].1, s0.shifts[a].0),
    ensures
        token_precedence(s0.shifts[a].0) < s0.items[b].0.precedence
            || (token_precedence(s0.shifts[a].0) == s0.items[b].0.precedence && s0.items[b].0.associativity == Associativity::Left)
            ==> !s1.shifts.contains(s0.shifts[a]),
        token_precedence(s0.shifts[a].0) > s0.items[b].0.precedence
            || (token_precedence(s0.shifts[a].0) == s0.items[b].0.precedence && s0.items[b].0.associativity != Associativity::Left)
            ==> !has_token(s1.items[b].1, s0.shifts[a].0),
        (forall|c: int| 0 <= c < s0.items.len() && s0.items[c].0.reducible() && #[trigger] has_token(s0.items[c].1, s0.shifts[a].0)
            ==> token_precedence(s0.shifts[a].0) > s0.items[c].0.precedence
                || (token_precedence(s0.shifts[a].0) == s0.items[c].0.precedence && s0.items[c].0.associativity != Associativity::Left))
            ==> s1.shifts.contains(s0.shifts[a]),
        token_precedence(s0.shifts[a].0) == s0.items[b].0.precedence && s0.items[b].0.associativity != Associativity::Left
            && !s0.items[b].0.has_error_recovery_tail
            ==> exists|m: int| s0.shift_reduce_conflicts.len() <= m < s1.shift_reduce_conflicts.len()
                && s1.shift_reduce_conflicts[m] == (s0.shifts[a].0, s0.shifts[a].1, s0.items[b].0, s0.items[b].1),
{
    let tok = s0.shifts[a].0;
    assert(sr_conflict(s0, a, b));
    if has_token(s1.items[b].1, tok) && shift_wins(token_precedence(tok), s0.items[b].0) {
        let j = choose|j: int| 0 <= j < s1.items[b].1.len() && same_token(#[trigger] s1.items[b].1[j], tok);
        let t = s1.items[b].1[j];
        assert(s1.items[b].1.contains(t));
        assert(look_ahead_survives(s0, b, t));
        assert(same_token(s0.shifts[a].0, t));
        assert(false);
    }
    if token_precedence(s0.shifts[a].0) == s0.items[b].0.precedence && s0.items[b].0.associativity != Associativity::Left
        && !s0.items[b].0.has_error_recovery_tail {
        assert(unresolved_sr_conflict(s0, a, b));
    }
    assert(s1.shifts.contains(s0.shifts[a]) <==> shift_survives(s0, a));
}

/// A reduce/reduce conflict between two reducible items, the first without
/// a predicate and neither with an error recovery tail, is resolved in
/// favour of the earlier one: it keeps its look ahead set, the later one
/// keeps only the tokens that the earlier one lacks, and the conflict is
/// recorded.
pub proof fn law_rr_favours_earlier(s: ParserStateView, b1: int, b2: int)
    requires
        0 <= b1 < b2 < s.items.len(),
        s.items[b1].0.reducible(),
        !s.items[b1].0.has_predicate,
        s.items[b2].0.reducible(),
        !s.items[b1].0.has_error_recovery_tail,
        !s.items[b2].0.has_error_recovery_tail,
        s.items[b1].1.filter(crate::terminal::in_tokens(s.items[b2].1)).len() > 0,
    ensures
        rr_pair_resolved(s, b1, b2).items[b1] == s.items[b1],
        rr_pair_resolved(s, b1, b2).items[b2].0 == s.items[b2].0,
        disjoint_look_aheads(rr_pair_resolved(s, b1, b2).items[b1].1, rr_pair_resolved(s, b1, b2).items[b2].1),
        rr_pair_resolved(s, b1, b2).reduce_reduce_conflicts.len() == s.reduce_reduce_conflicts.len() + 1,
{
    let t = rr_pair_resolved(s, b1, b2);
    let inter = s.items[b1].1.filter(crate::terminal::in_tokens(s.items[b2].1));
    assert(look_aheads_trimmed(s, s));
    lemma_trim_step(s, s, t, b2, b1, b1, b2, inter);
}

/// Where the `b1`th item cannot lose to a later one (it is not reducible or
/// has a predicate), its pairs change nothing.
proof fn lemma_rr_skip(s: ParserStateView, n: int, b1: int, b2: int)
    requires
        0 <= b1 < n,
        b1 < b2,
        !(s.items[b1].0.reducible() && !s.items[b1].0.has_predicate),
    ensures
        rr_resolved_from(s, n, b1, b2) == rr_resolved_from(s, n, b1 + 1, b1 + 2),
    decreases n - b2,
{
    if b2 < n {
        assert(rr_pair_resolved(s, b1, b2) == s);
        lemma_rr_skip(s, n, b1, b2 + 1);
    }
}

impl ParserState {
    /// Replaces the look ahead set of the `b`th item.
    fn set_look_ahead(&mut self, b: usize, set: TokenSet)
        requires
            old(self).wf(),
            b < old(self)@.items.len(),
            set.wf(),
        ensures
            final(self).wf(),
            final(self)@ == (ParserStateView { items: old(self)@.items.update(b as int, (old(self)@.items[b as int].0, set@)), ..old(self)@ }),
    {
        let key = self.items[b].0;
        let ghost before_items = self.items@;
        let ghost new_set = set@;
        self.items.set(b, (key, set));
        proof {
            assert(old(self)@.items[b as int] == (before_items[b as int].0, before_items[b as int].1@));
            assert(self@.items =~= old(self)@.items.update(b as int, (old(self)@.items[b as int].0, new_set)));
            assert forall|i: int| 0 <= i < self.items@.len() implies (#[trigger] self.items@[i]).1.wf() by {
                if i != b {
                    assert(self.items@[i] == before_items[i]);
                }
            }
            assert forall|i: int, j: int| 0 <= i < j < self@.items.len() implies (#[trigger] self@.items[i]).0.precedes((#[trigger] self@.items[j]).0) by {
                assert(old(self)@.items[i].0.precedes(old(self)@.items[j].0));
            }
        }
    }

    fn count_reducible(&self) -> (r: usize)
        requires
            self.wf(),
        ensures
            r == reducible_count(self@.items),
    {
        let mut r: usize = 0;
        let mut i: usize = 0;
        while i < self.items.len()
            invariant
                i <= self@.items.len(),
                self@.items.len() == self.items@.len(),
                r == reducible_count(self@.items.take(i as int)),
                r <= i,
            decreases self@.items.len() - i,
        {
            proof {
                assert(self@.items.take(i + 1).drop_last() =~= self@.items.take(i as int));
                assert(self@.items[i as int] == (self.items@[i as int].0, self.items@[i as int].1@));
            }
            if self.items[i].0.is_reducible() {
                r = r + 1;
            }
            i = i + 1;
        }
        proof {
            assert(self@.items.take(i as int) =~= self@.items);
        }
        r
    }

    /// Resolves each conflict between reducing by two reducible items whose
    /// look ahead sets share tokens, unless the first (in the order of
    /// items) has a predicate: in favour of an item without an error
    /// recovery tail, the second losing the shared tokens where neither has
    /// one, which is then recorded as unresolved. Gives the number of
    /// unresolved conflicts recorded in the state, or zero where it has
    /// fewer than two reducible items.
    #[verifier::rlimit(40)]
    pub fn resolve_reduce_reduce_conflicts(&mut self) -> (r: usize)
        requires
            old(self).wf(),
        ensures
            final(self).wf(),
            final(self)@.ident == old(self)@.ident,
            final(self)@.shifts == old(self)@.shifts,
            final(self)@.gotos == old(self)@.gotos,
            final(self)@.error_recovery_state == old(self)@.error_recovery_state,
            final(self)@.processed_state == old(self)@.processed_state,
            final(self)@.shift_reduce_conflicts == old(self)@.shift_reduce_conflicts,
            look_aheads_trimmed(old(self)@, final(self)@),
            free_of_reduce_reduce_conflicts(final(self)@),
            final(self)@.reduce_reduce_conflicts.len() >= old(self)@.reduce_reduce_conflicts.len(),
            final(self)@.reduce_reduce_conflicts.take(old(self)@.reduce_reduce_conflicts.len() as int)
                == old(self)@.reduce_reduce_conflicts,
            r == if reducible_count(old(self)@.items) < 2 { 0 } else { final(self)@.reduce_reduce_conflicts.len() },
            rr_records_items(final(self)@.reduce_reduce_conflicts, old(self)@.reduce_reduce_conflicts.len() as int, old(self)@.items),
            reducible_count(old(self)@.items) >= 2 ==> final(self)@ == rr_resolved(old(self)@),
            reducible_count(old(self)@.items) < 2 ==> final(self)@ == old(self)@,
    {
        let ghost s0 = self@;
        if self.count_reducible() < 2 {
            proof {
                assert(look_aheads_trimmed(s0, self@));
                assert forall|x: int, y: int|
                    0 <= x < y < self@.items.len() && (#[trigger] self@.items[x]).0.reducible() && (#[trigger] self@.items[y]).0.reducible()
                        && !self@.items[x].0.has_predicate implies disjoint_look_aheads(self@.items[x].1, self@.items[y].1) by {
                    lemma_two_reducible(self@.items, x, y);
                }
            }
            return 0;
        }
        let n = self.items.len();
        let mut b1: usize = 0;
        while b1 < n
            invariant
                n == self@.items.len(),
                b1 <= n,
                self.wf(),
                self@.ident == s0.ident,
                self@.shifts == s0.shifts,
                self@.gotos == s0.gotos,
                self@.error_recovery_state == s0.error_recovery_state,
                self@.processed_state == s0.processed_state,
                self@.shift_reduce_conflicts == s0.shift_reduce_conflicts,
                look_aheads_trimmed(s0, self@),
                self@.reduce_reduce_conflicts.len() >= s0.reduce_reduce_conflicts.len(),
                self@.reduce_reduce_conflicts.take(s0.reduce_reduce_conflicts.len() as int) == s0.reduce_reduce_conflicts,
                rr_records_items(self@.reduce_reduce_conflicts, s0.reduce_reduce_conflicts.len() as int, s0.items),
                forall|x: int, y: int|
                    0 <= x < b1 && x < y < n && (#[trigger] self@.items[x]).0.reducible() && (#[trigger] self@.items[y]).0.reducible()
                        && !self@.items[x].0.has_predicate ==> disjoint_look_aheads(self@.items[x].1, self@.items[y].1),
                rr_resolved_from(self@, n as int, b1 as int, b1 + 1) == rr_resolved(s0),
            decreases n - b1,
        {
            proof {
                assert(self@.items[b1 as int] == (self.items@[b1 as int].0, self.items@[b1 as int].1@));
            }
            if self.items[b1].0.is_reducible() && self.items[b1].0.has_no_predicate() {
                let mut b2: usize = b1 + 1;
                while b2 < n
                    invariant
                        n == self@.items.len(),
                        b1 < b2 <= n,
                        self.wf(),
                        self@.ident == s0.ident,
                        self@.shifts == s0.shifts,
                        self@.gotos == s0.gotos,
                        self@.error_recovery_state == s0.error_recovery_state,
                        self@.processed_state == s0.processed_state,
                        self@.shift_reduce_conflicts == s0.shift_reduce_conflicts,
                        look_aheads_trimmed(s0, self@),
                        self@.items[b1 as int].0.reducible(),
                        !self@.items[b1 as int].0.has_predicate,
                        self@.reduce_reduce_conflicts.len() >= s0.reduce_reduce_conflicts.len(),
                        self@.reduce_reduce_conflicts.take(s0.reduce_reduce_conflicts.len() as int) == s0.reduce_reduce_conflicts,
                        rr_records_items(self@.reduce_reduce_conflicts, s0.reduce_reduce_conflicts.len() as int, s0.items),
                        forall|x: int, y: int|
                            0 <= x < b1 && x < y < n && (#[trigger] self@.items[x]).0.reducible() && (#[trigger] self@.items[y]).0.reducible()
                                && !self@.items[x].0.has_predicate ==> disjoint_look_aheads(self@.items[x].1, self@.items[y].1),
                        forall|y: int| b1 < y < b2 && (#[trigger] self@.items[y]).0.reducible()
                            ==> disjoint_look_aheads(self@.items[b1 as int].1, self@.items[y].1),
                        rr_resolved_from(self@, n as int, b1 as int, b2 as int) == rr_resolved(s0),
                    decreases n - b2,
                {
                    proof {
                        assert(self@.items[b1 as int] == (self.items@[b1 as int].0, self.items@[b1 as int].1@));
                        assert(self@.items[b2 as int] == (self.items@[b2 as int].0, self.items@[b2 as int].1@));
                        assert(self.items@[b1 as int].1.wf());
                        assert(self.items@[b2 as int].1.wf());
                    }
                    let ghost at_pair = self@;
                    proof {
                        assert(rr_resolved_from(at_pair, n as int, b1 as int, b2 as int)
                            == rr_resolved_from(rr_pair_resolved(at_pair, b1 as int, b2 as int), n as int, b1 as int, b2 + 1));
                    }
                    if self.items[b2].0.is_reducible() {
                        let intersection = self.items[b1].1.intersection_set(&self.items[b2].1);
                        if intersection.len() > 0 {
                            let key_1 = self.items[b1].0;
                            let key_2 = self.items[b2].0;
                            let ghost before = self@;
                            if key_1.has_error_recovery_tail {
                                let mut set = self.items[b1].1.snapshot();
                                set.remove_all(&intersection);
                                self.set_look_ahead(b1, set);
                                proof {
                                    lemma_trim_step(s0, before, self@, b1 as int, b2 as int, b1 as int, b2 as int, intersection@);
                                    lemma_rows_kept(before, self@, b1 as int, b2 as int, n as int);
                                    assert(self@ == rr_pair_resolved(before, b1 as int, b2 as int));
                                }
                            } else {
                                let mut set = self.items[b2].1.snapshot();
                                set.remove_all(&intersection);
                                self.set_look_ahead(b2, set);
                                proof {
                                    lemma_trim_step(s0, before, self@, b2 as int, b1 as int, b1 as int, b2 as int, intersection@);
                                    lemma_rows_kept(before, self@, b1 as int, b2 as int, n as int);
                                }
                                if !key_2.has_error_recovery_tail {
                                    let ghost trimmed = self@;
                                    let ghost before_rr = self@.reduce_reduce_conflicts;
                                    self.reduce_reduce_conflicts.push((key_1, key_2, intersection));
                                    proof {
                                        assert(self@.reduce_reduce_conflicts.take(s0.reduce_reduce_conflicts.len() as int)
                                            =~= before_rr.take(s0.reduce_reduce_conflicts.len() as int));
                                        assert(key_1 == s0.items[b1 as int].0);
                                        assert(key_2 == s0.items[b2 as int].0);
                                        let rr = self@.reduce_reduce_conflicts;
                                        assert forall|m: int| s0.reduce_reduce_conflicts.len() <= m < rr.len() implies (exists|b: int| 0 <= b < s0.items.len() && s0.items[b].0 == (#[trigger] rr[m]).0)
                                            && (exists|b: int| 0 <= b < s0.items.len() && s0.items[b].0 == rr[m].1) by {
                                            if m < before_rr.len() {
                                                assert(rr[m] == before_rr[m]);
                                            } else {
                                                assert(rr[m].0 == s0.items[b1 as int].0);
                                                assert(rr[m].1 == s0.items[b2 as int].0);
                                            }
                                        }
                                        assert(self@.items == trimmed.items);
                                        assert(self@.reduce_reduce_conflicts =~= before.reduce_reduce_conflicts.push((key_1, key_2, intersection@)));
                                        assert(self@ == rr_pair_resolved(before, b1 as int, b2 as int));
                                    }
                                } else {
                                    proof {
                                        assert(self@ == rr_pair_resolved(before, b1 as int, b2 as int));
                                    }
                                }
                            }
                        } else {
                            proof {
                                lemma_empty_intersection(self@.items[b1 as int].1, self@.items[b2 as int].1);
                                assert(rr_pair_resolved(at_pair, b1 as int, b2 as int) == at_pair);
                            }
                        }
                    } else {
                        proof {
                            assert(rr_pair_resolved(at_pair, b1 as int, b2 as int) == at_pair);
                        }
                    }
                    b2 = b2 + 1;
                }
            } else {
                proof {
                    lemma_rr_skip(self@, n as int, b1 as int, b1 + 1);
                }
            }
            b1 = b1 + 1;
        }
        self.reduce_reduce_conflicts.len()
    }
}

/// Where fewer than two items are reducible, no two distinct ones are.
proof fn lemma_two_reducible(items: Seq<(GrammarItemKey, Seq<TokenView>)>, x: int, y: int)
    requires
        0 <= x < y < items.len(),
        items[x].0.reducible(),
        items[y].0.reducible(),
    ensures
        reducible_count(items) >= 2,
    decreases items.len(),
{
    let n = items.len() as int;
    let sub = items.drop_last();
    if y < n - 1 {
        assert(sub[x] == items[x] && sub[y] == items[y]);
        lemma_two_reducible(sub, x, y);
    } else {
        assert(sub[x] == items[x]);
        lemma_one_reducible(sub, x);
    }
}

proof fn lemma_one_reducible(items: Seq<(GrammarItemKey, Seq<TokenView>)>, x: int)
    requires
        0 <= x < items.len(),
        items[x].0.reducible(),
    ensures
        reducible_count(items) >= 1,
    decreases items.len(),
{
    let sub = items.drop_last();
    if x < items.len() - 1 {
        assert(sub[x] == items[x]);
        lemma_one_reducible(sub, x);
    }
}

/// Two look ahead sets whose intersection is empty share no token.
proof fn lemma_empty_intersection(a: Seq<TokenView>, b: Seq<TokenView>)
    requires
        a.filter(crate::terminal::in_tokens(b)).len() == 0,
    ensures
        disjoint_look_aheads(a, b),
{
    assert forall|t: TokenView| #[trigger] a.contains(t) implies !has_token(b, t) by {
        if has_token(b, t) {
            let k = choose|k: int| 0 <= k < a.len() && a[k] == t;
            a.lemma_filter_contains(crate::terminal::in_tokens(b), k);
            assert(a.filter(crate::terminal::in_tokens(b)).contains(t));
        }
    }
}

/// Membership in a filtered sequence.
proof fn lemma_filter_member(s: Seq<TokenView>, p: spec_fn(TokenView) -> bool, x: TokenView)
    ensures
        s.filter(p).contains(x) <==> s.contains(x) && p(x),
{
    if s.filter(p).contains(x) {
        s.lemma_filter_contains_rev(p, x);
        let k = choose|k: int| 0 <= k < s.filter(p).len() && s.filter(p)[k] == x;
        s.lemma_filter_pred(p, k);
    }
    if s.contains(x) && p(x) {
        let k = choose|k: int| 0 <= k < s.len() && s[k] == x;
        s.lemma_filter_contains(p, k);
    }
}

/// A look ahead token shared with another item leaves one item's set.
proof fn lemma_trim_step(
    s0: ParserStateView,
    before: ParserStateView,
    after: ParserStateView,
    b: int,
    other: int,
    lo: int,
    hi: int,
    inter: Seq<TokenView>,
)
    requires
        look_aheads_trimmed(s0, before),
        0 <= lo < hi < before.items.len(),
        (b == lo && other == hi) || (b == hi && other == lo),
        before.items[b].0.reducible(),
        before.items[other].0.reducible(),
        inter == before.items[lo].1.filter(crate::terminal::in_tokens(before.items[hi].1)),
        after.items == before.items.update(b, (before.items[b].0, before.items[b].1.filter(crate::terminal::not_in_tokens(inter)))),
    ensures
        look_aheads_trimmed(s0, after),
        disjoint_look_aheads(after.items[lo].1, after.items[hi].1),
        forall|i: int, t: TokenView| 0 <= i < after.items.len() && #[trigger] after.items[i].1.contains(t) ==> before.items[i].1.contains(t),
        forall|i: int| 0 <= i < after.items.len() && i != b ==> #[trigger] after.items[i] == before.items[i],
        forall|i: int| 0 <= i < after.items.len() ==> (#[trigger] after.items[i]).0 == before.items[i].0,
{
    let la_b = before.items[b].1;
    let nla = la_b.filter(crate::terminal::not_in_tokens(inter));
    assert forall|t: TokenView| #[trigger] nla.contains(t) implies la_b.contains(t) && !has_token(inter, t) by {
        lemma_filter_member(la_b, crate::terminal::not_in_tokens(inter), t);
    }
    assert forall|u: TokenView| #[trigger] inter.contains(u) implies before.items[lo].1.contains(u) && has_token(before.items[hi].1, u) by {
        lemma_filter_member(before.items[lo].1, crate::terminal::in_tokens(before.items[hi].1), u);
    }
    assert forall|i: int, t: TokenView| 0 <= i < after.items.len() && #[trigger] after.items[i].1.contains(t) implies before.items[i].1.contains(t) by {
        if i == b {
            assert(nla.contains(t));
        }
    }
    // the trimmed tokens are shared with the other item
    assert forall|bb: int, x: TokenView| 0 <= bb < s0.items.len() && s0.items[bb].1.contains(x) && !(#[trigger] after.items[bb].1.contains(x))
        implies s0.items[bb].0.reducible() && exists|c: int| 0 <= c < s0.items.len() && c != bb && (#[trigger] s0.items[c]).0.reducible() && has_token(s0.items[c].1, x) by {
        if before.items[bb].1.contains(x) {
            assert(bb == b);
            lemma_filter_member(la_b, crate::terminal::not_in_tokens(inter), x);
            assert(has_token(inter, x));
            let k = choose|k: int| 0 <= k < inter.len() && same_token(inter[k], x);
            let u = inter[k];
            assert(inter.contains(u));
            assert(before.items[lo].1.contains(u) && has_token(before.items[hi].1, u));
            assert(s0.items[b].0 == before.items[b].0);
            assert(s0.items[other].0 == before.items[other].0);
            // the other item's set before the change holds a token like x
            if other == hi {
                let w = choose|w: int| 0 <= w < before.items[hi].1.len() && same_token(before.items[hi].1[w], u);
                let y = before.items[hi].1[w];
                assert(before.items[hi].1.contains(y));
                assert(s0.items[hi].1.contains(y));
                let z = choose|z: int| 0 <= z < s0.items[hi].1.len() && s0.items[hi].1[z] == y;
                lemma_token_order(y, u, x);
                assert(same_token(s0.items[hi].1[z], x));
            } else {
                assert(s0.items[lo].1.contains(u));
                let z = choose|z: int| 0 <= z < s0.items[lo].1.len() && s0.items[lo].1[z] == u;
                assert(same_token(s0.items[lo].1[z], x));
            }
        }
    }
    // the two items no longer share a token
    assert forall|t: TokenView| #[trigger] after.items[lo].1.contains(t) implies !has_token(after.items[hi].1, t) by {
        if b == lo {
            assert(nla.contains(t));
            if has_token(before.items[hi].1, t) {
                lemma_filter_member(before.items[lo].1, crate::terminal::in_tokens(before.items[hi].1), t);
                assert(inter.contains(t));
                let k = choose|k: int| 0 <= k < inter.len() && inter[k] == t;
                assert(same_token(inter[k], t));
            }
            if has_token(after.items[hi].1, t) {
                let w = choose|w: int| 0 <= w < after.items[hi].1.len() && same_token(after.items[hi].1[w], t);
                assert(after.items[hi].1.contains(after.items[hi].1[w]));
                assert(before.items[hi].1.contains(after.items[hi].1[w]));
                let w2 = choose|w2: int| 0 <= w2 < before.items[hi].1.len() && before.items[hi].1[w2] == after.items[hi].1[w];
                assert(same_token(before.items[hi].1[w2], t));
            }
        } else {
            assert(before.items[lo].1.contains(t));
            if has_token(after.items[hi].1, t) {
                let w = choose|w: int| 0 <= w < nla.len() && same_token(nla[w], t);
                let y = nla[w];
                assert(nla.contains(y));
                assert(la_b.contains(y) && !has_token(inter, y));
                assert(has_token(before.items[hi].1, t)) by {
                    let w2 = choose|w2: int| 0 <= w2 < la_b.len() && la_b[w2] == y;
                    lemma_token_order(y, t, t);
                    assert(same_token(la_b[w2], t));
                }
                lemma_filter_member(before.items[lo].1, crate::terminal::in_tokens(before.items[hi].1), t);
                assert(inter.contains(t));
                let k = choose|k: int| 0 <= k < inter.len() && inter[k] == t;
                lemma_token_order(t, y, y);
                assert(same_token(inter[k], y));
            }
        }
    }
}

/// Disjoint look ahead sets stay disjoint as they lose tokens.
proof fn lemma_disjoint_shrink(a: Seq<TokenView>, b: Seq<TokenView>, a2: Seq<TokenView>, b2: Seq<TokenView>)
    requires
        disjoint_look_aheads(a, b),
        forall|t: TokenView| #[trigger] a2.contains(t) ==> a.contains(t),
        forall|t: TokenView| #[trigger] b2.contains(t) ==> b.contains(t),
    ensures
        disjoint_look_aheads(a2, b2),
{
    assert forall|t: TokenView| #[trigger] a2.contains(t) implies !has_token(b2, t) by {
        assert(a.contains(t));
        if has_token(b2, t) {
            let w = choose|w: int| 0 <= w < b2.len() && same_token(b2[w], t);
            assert(b2.contains(b2[w]));
            assert(b.contains(b2[w]));
            let w2 = choose|w2: int| 0 <= w2 < b.len() && b[w2] == b2[w];
            assert(same_token(b[w2], t));
        }
    }
}

/// The disjointness established for earlier pairs of reducible items
/// survives a step that only removes look ahead tokens, and the step's own
/// pair is disjoint afterwards.
proof fn lemma_rows_kept(before: ParserStateView, after: ParserStateView, b1: int, b2: int, n: int)
    requires
        n == before.items.len() == after.items.len(),
        0 <= b1 < b2 < n,
        forall|i: int, t: TokenView| 0 <= i < after.items.len() && #[trigger] after.items[i].1.contains(t) ==> before.items[i].1.contains(t),
        forall|i: int| 0 <= i < after.items.len() ==> (#[trigger] after.items[i]).0 == before.items[i].0,
        disjoint_look_aheads(after.items[b1].1, after.items[b2].1),
        forall|x: int, y: int|
            0 <= x < b1 && x < y < n && (#[trigger] before.items[x]).0.reducible() && (#[trigger] before.items[y]).0.reducible()
                && !before.items[x].0.has_predicate ==> disjoint_look_aheads(before.items[x].1, before.items[y].1),
        forall|y: int| b1 < y < b2 && (#[trigger] before.items[y]).0.reducible()
            ==> disjoint_look_aheads(before.items[b1].1, before.items[y].1),
    ensures
        forall|x: int, y: int|
            0 <= x < b1 && x < y < n && (#[trigger] after.items[x]).0.reducible() && (#[trigger] after.items[y]).0.reducible()
                && !after.items[x].0.has_predicate ==> disjoint_look_aheads(after.items[x].1, after.items[y].1),
        forall|y: int| b1 < y < b2 + 1 && (#[trigger] after.items[y]).0.reducible()
            ==> disjoint_look_aheads(after.items[b1].1, after.items[y].1),
{
    assert forall|x: int, y: int|
        0 <= x < b1 && x < y < n && (#[trigger] after.items[x]).0.reducible() && (#[trigger] after.items[y]).0.reducible()
            && !after.items[x].0.has_predicate implies disjoint_look_aheads(after.items[x].1, after.items[y].1) by {
        assert(after.items[x].0 == before.items[x].0);
        assert(after.items[y].0 == before.items[y].0);
        assert(disjoint_look_aheads(before.items[x].1, before.items[y].1));
        lemma_disjoint_shrink(before.items[x].1, before.items[y].1, after.items[x].1, after.items[y].1);
    }
    assert forall|y: int| b1 < y < b2 + 1 && (#[trigger] after.items[y]).0.reducible()
        implies disjoint_look_aheads(after.items[b1].1, after.items[y].1) by {
        if y < b2 {
            assert(after.items[y].0 == before.items[y].0);
            assert(disjoint_look_aheads(before.items[b1].1, before.items[y].1));
            lemma_disjoint_shrink(before.items[b1].1, before.items[y].1, after.items[b1].1, after.items[y].1);
        }
    }
}

/// Some reducible item of `s` has a look ahead token that is the same as `t`.
pub open spec fn reducible_look_ahead_has(s: ParserStateView, t: TokenView) -> bool {
    exists|b: int| 0 <= b < s.items.len() && (#[trigger] s.items[b]).0.reducible() && has_token(s.items[b].1, t)
}

/// Some item of `s` with a reducible error recovery tail has a look ahead
/// token that is the same as `t`.
pub open spec fn error_recovery_look_ahead_has(s: ParserStateView, t: TokenView) -> bool {
    exists|b: int| 0 <= b < s.items.len() && (#[trigger] s.items[b]).0.reducible() && s.items[b].0.has_error_recovery_tail && has_token(s.items[b].1, t)
}

/// `t` is shifted in `s`.
pub open spec fn shifts_token(s: ParserStateView, t: TokenView) -> bool {
    exists|k: int| 0 <= k < s.shifts.len() && same_token((#[trigger] s.shifts[k]).0, t)
}

/// After `union_with`, a set holds a token like `t` exactly when either set did.
proof fn lemma_union_has(old: Seq<TokenView>, other: Seq<TokenView>, new: Seq<TokenView>, t: TokenView)
    requires
        forall|x: TokenView| #![trigger new.contains(x)] new.contains(x) <==> old.contains(x) || (other.contains(x) && !has_token(old, x)),
    ensures
        has_token(new, t) <==> has_token(old, t) || has_token(other, t),
{
    if has_token(new, t) {
        let k = choose|k: int| 0 <= k < new.len() && same_token(new[k], t);
        assert(new.contains(new[k]));
        if old.contains(new[k]) {
            let j = choose|j: int| 0 <= j < old.len() && old[j] == new[k];
            assert(same_token(old[j], t));
        } else {
            let j = choose|j: int| 0 <= j < other.len() && other[j] == new[k];
            assert(same_token(other[j], t));
        }
    }
    if has_token(old, t) && !has_token(new, t) {
        let k = choose|k: int| 0 <= k < old.len() && same_token(old[k], t);
        assert(old.contains(old[k]));
        assert(new.contains(old[k]));
        let j = choose|j: int| 0 <= j < new.len() && new[j] == old[k];
        assert(same_token(new[j], t));
    }
    if has_token(other, t) && !has_token(old, t) && !has_token(new, t) {
        let k = choose|k: int| 0 <= k < other.len() && same_token(other[k], t);
        assert(other.contains(other[k]));
        if has_token(old, other[k]) {
            let j = choose|j: int| 0 <= j < old.len() && same_token(old[j], other[k]);
            lemma_token_order(old[j], other[k], t);
            assert(same_token(old[j], t));
        }
        assert(new.contains(other[k]));
        let j = choose|j: int| 0 <= j < new.len() && new[j] == other[k];
        assert(same_token(new[j], t));
    }
}

impl ParserState {
    /// The tokens in the look ahead sets of the reducible items.
    pub fn reducible_look_ahead_set(&self) -> (r: TokenSet)
        requires
            self.wf(),
        ensures
            r.wf(),
            forall|t: TokenView| #[trigger] has_token(r@, t) <==> reducible_look_ahead_has(self@, t),
    {
        let mut set = TokenSet::new();
        let mut b: usize = 0;
        while b < self.items.len()
            invariant
                self.wf(),
                b <= self@.items.len(),
                self@.items.len() == self.items@.len(),
                set.wf(),
                forall|t: TokenView| #[trigger] has_token(set@, t) <==> exists|c: int| 0 <= c < b && (#[trigger] self@.items[c]).0.reducible() && has_token(self@.items[c].1, t),
            decreases self@.items.len() - b,
        {
            proof {
                assert(self@.items[b as int] == (self.items@[b as int].0, self.items@[b as int].1@));
                assert(self.items@[b as int].1.wf());
            }
            if self.items[b].0.is_reducible() {
                let ghost before = set@;
                let _ = set.union_with(&self.items[b].1);
                proof {
                    assert forall|t: TokenView| #[trigger] has_token(set@, t) <==> exists|c: int| 0 <= c < b + 1 && (#[trigger] self@.items[c]).0.reducible() && has_token(self@.items[c].1, t) by {
                        lemma_union_has(before, self@.items[b as int].1, set@, t);
                    }
                }
            }
            b = b + 1;
        }
        set
    }

    /// The tokens for which the state has an action: those of the reducible
    /// items' look ahead sets and those it shifts.
    pub fn look_ahead_set(&self) -> (r: TokenSet)
        requires
            self.wf(),
        ensures
            r.wf(),
            forall|t: TokenView| #[trigger] has_token(r@, t) <==> reducible_look_ahead_has(self@, t) || shifts_token(self@, t),
    {
        let mut set = self.reducible_look_ahead_set();
        let mut k: usize = 0;
        while k < self.shift_list.len()
            invariant
                self.wf(),
                k <= self@.shifts.len(),
                self@.shifts.len() == self.shift_list@.len(),
                set.wf(),
                forall|t: TokenView| #[trigger] has_token(set@, t) <==> reducible_look_ahead_has(self@, t)
                    || exists|j: int| 0 <= j < k && same_token((#[trigger] self@.shifts[j]).0, t),
            decreases self@.shifts.len() - k,
        {
            proof {
                assert(self@.shifts[k as int] == (self.shift_list@[k as int].0@, self.shift_list@[k as int].1));
            }
            let ghost before = set@;
            let ghost x = self@.shifts[k as int].0;
            let added = set.insert(&self.shift_list[k].0);
            proof {
                assert forall|t: TokenView| #[trigger] has_token(set@, t) <==> reducible_look_ahead_has(self@, t)
                    || exists|j: int| 0 <= j < k + 1 && same_token((#[trigger] self@.shifts[j]).0, t) by {
                    if added {
                        let p = choose|p: int| 0 <= p <= before.len() && set@ == before.insert(p, x);
                        if has_token(set@, t) {
                            let w = choose|w: int| 0 <= w < set@.len() && same_token(set@[w], t);
                            if w < p {
                                assert(same_token(before[w], t));
                            } else if w > p {
                                assert(same_token(before[w - 1], t));
                            } else {
                                assert(same_token(self@.shifts[k as int].0, t));
                            }
                        }
                        if has_token(before, t) {
                            let w = choose|w: int| 0 <= w < before.len() && same_token(before[w], t);
                            if w < p {
                                assert(same_token(set@[w], t));
                            } else {
                                assert(same_token(set@[w + 1], t));
                            }
                        }
                        if same_token(x, t) {
                            assert(same_token(set@[p], t));
                        }
                    } else {
                        if same_token(x, t) {
                            let w = choose|w: int| 0 <= w < before.len() && same_token(before[w], x);
                            lemma_token_order(before[w], x, t);
                            assert(same_token(before[w], t));
                        }
                    }
                }
            }
            k = k + 1;
        }
        set
    }

    /// Whether an item with a reducible error recovery tail has `token` in
    /// its look ahead set.
    pub fn error_recovery_look_ahead_set_contains(&self, token: &Token) -> (r: bool)
        requires
            self.wf(),
        ensures
            r == error_recovery_look_ahead_has(self@, token@),
    {
        let mut b: usize = 0;
        while b < self.items.len()
            invariant
                self.wf(),
                b <= self@.items.len(),
                self@.items.len() == self.items@.len(),
                forall|c: int| 0 <= c < b ==> !((#[trigger] self@.items[c]).0.reducible() && self@.items[c].0.has_error_recovery_tail && has_token(self@.items[c].1, token@)),
            decreases self@.items.len() - b,
        {
            proof {
                assert(self@.items[b as int] == (self.items@[b as int].0, self.items@[b as int].1@));
                assert(self.items@[b as int].1.wf());
            }
            if self.items[b].0.has_reducible_error_recovery_tail() && self.items[b].1.contains(token) {
                return true;
            }
            b = b + 1;
        }
        false
    }

    /// Adds the action of shifting `token` into `state`; where the state
    /// already shifts that token, only its target changes.
    #[verifier::rlimit(40)]
    #[verifier::spinoff_prover]
    pub fn add_shift_action(&mut self, token: &Token, state: u32)
        requires
            old(self).wf(),
        ensures
            final(self).wf(),
            final(self)@.items == old(self)@.items,
            final(self)@.ident == old(self)@.ident,
            final(self)@.gotos == old(self)@.gotos,
            final(self)@.error_recovery_state == old(self)@.error_recovery_state,
            final(self)@.processed_state == old(self)@.processed_state,
            final(self)@.shift_reduce_conflicts == old(self)@.shift_reduce_conflicts,
            final(self)@.reduce_reduce_conflicts == old(self)@.reduce_reduce_conflicts,
            shifts_token(old(self)@, token@) ==> exists|k: int| 0 <= k < old(self)@.shifts.len() && same_token(old(self)@.shifts[k].0, token@)
                && final(self)@.shifts == old(self)@.shifts.update(k, (old(self)@.shifts[k].0, state)),
            !shifts_token(old(self)@, token@) ==> exists|p: int| 0 <= p <= old(self)@.shifts.len()
                && final(self)@.shifts == old(self)@.shifts.insert(p, (token@, state)),
    {
        let n = self.shift_list.len();
        let mut p: usize = 0;
        proof {
            if 0 < n {
                assert(self@.shifts[0] == (self.shift_list@[0].0@, self.shift_list@[0].1));
            }
        }
        while p < n && self.shift_list[p].0.order(token) == crate::order::Order::Less
            invariant
                n == self@.shifts.len(),
                n == self.shift_list@.len(),
                self@ == old(self)@,
                self.wf(),
                p <= n,
                forall|j: int| 0 <= j < p ==> token_lt((#[trigger] self@.shifts[j]).0, token@),
            decreases n - p,
        {
            proof {
                assert(self@.shifts[p as int] == (self.shift_list@[p as int].0@, self.shift_list@[p as int].1));
            }
            p = p + 1;
            proof {
                if p < n {
                    assert(self@.shifts[p as int] == (self.shift_list@[p as int].0@, self.shift_list@[p as int].1));
                }
            }
        }
        let ghost old_shifts = self@.shifts;
        proof {
            assert(p < n ==> !token_lt(old_shifts[p as int].0, token@));
            if p < n {
                assert(old_shifts[p as int] == (self.shift_list@[p as int].0@, self.shift_list@[p as int].1));
            }
        }
        if p < n && self.shift_list[p].0.order(token) == crate::order::Order::Equal {
            let existing = self.shift_list[p].0.snapshot();
            let ghost before = self.shift_list@;
            self.shift_list.set(p, (existing, state));
            proof {
                assert(self@.shifts =~= old_shifts.update(p as int, (old_shifts[p as int].0, state)));
                assert(shifts_ordered(self@.shifts)) by {
                    assert forall|i: int, j: int| 0 <= i < j < self@.shifts.len() implies token_lt((#[trigger] self@.shifts[i]).0, (#[trigger] self@.shifts[j]).0) by {
                        assert(token_lt(old_shifts[i].0, old_shifts[j].0));
                    }
                }
            }
        } else {
            proof {
                assert(!shifts_token(self@, token@)) by {
                    if shifts_token(self@, token@) {
                        let k = choose|k: int| 0 <= k < self@.shifts.len() && same_token(self@.shifts[k].0, token@);
                        lemma_token_order(self@.shifts[k].0, token@, token@);
                        if k > p {
                            lemma_token_order(old_shifts[p as int].0, old_shifts[k].0, token@);
                            lemma_token_order(old_shifts[p as int].0, token@, token@);
                        }
                        if k == p {
                            lemma_token_order(old_shifts[p as int].0, token@, token@);
                        }
                    }
                }
            }
            self.shift_list.insert(p, (token.snapshot(), state));
            proof {
                let nv = old_shifts.insert(p as int, (token@, state));
                assert(self@.shifts =~= nv);
                assert forall|i: int, j: int| 0 <= i < j < nv.len() implies token_lt((#[trigger] nv[i]).0, (#[trigger] nv[j]).0) by {
                    if j == p {
                        assert(nv[i] == old_shifts[i]);
                    } else if i == p {
                        assert(nv[j] == old_shifts[j - 1]);
                        lemma_token_order(old_shifts[p as int].0, token@, token@);
                        lemma_token_order(token@, old_shifts[p as int].0, old_shifts[j - 1].0);
                    } else if j < p {
                        assert(nv[i] == old_shifts[i] && nv[j] == old_shifts[j]);
                    } else if i > p {
                        assert(nv[i] == old_shifts[i - 1] && nv[j] == old_shifts[j - 1]);
                    } else {
                        assert(nv[i] == old_shifts[i] && nv[j] == old_shifts[j - 1]);
                    }
                }
            }
        }
    }
}


/// The look ahead tokens that `item_set` brings to the `b`th item of `s`:
/// some kernel item of `item_set` that is the same item holds a token like `t`.
pub open spec fn merged_look_ahead_has(
    s: ParserStateView,
    item_set: Seq<(GrammarItemKey, Seq<TokenView>)>,
    b: int,
    t: TokenView,
) -> bool {
    exists|c: int|
        0 <= c < item_set.len() && (#[trigger] item_set[c]).0.same_item(s.items[b].0)
            && (item_set[c].0.dot > 0 || item_set[c].0.is_start) && has_token(item_set[c].1, t)
}

/// Merging `item_set` into `s` adds a look ahead token to some item.
pub open spec fn merge_adds(s: ParserStateView, item_set: Seq<(GrammarItemKey, Seq<TokenView>)>) -> bool {
    exists|b: int, t: TokenView|
        0 <= b < s.items.len() && #[trigger] merged_look_ahead_has(s, item_set, b, t) && !has_token(s.items[b].1, t)
}

/// Distinct items of an ordered state are distinct grammar items.
proof fn lemma_items_distinct(items: Seq<(GrammarItemKey, Seq<TokenView>)>, i: int, j: int)
    requires
        items_ordered(items),
        0 <= i < items.len(),
        0 <= j < items.len(),
        items[i].0.same_item(items[j].0),
    ensures
        i == j,
{
    if i < j {
        assert(items[i].0.precedes(items[j].0));
    } else if j < i {
        assert(items[j].0.precedes(items[i].0));
    }
}

impl ParserState {
    /// The position of the item that is the same grammar item as `key`.
    fn find_item(&self, key: &GrammarItemKey) -> (r: Option<usize>)
        requires
            self.wf(),
        ensures
            match r {
                Some(b) => b < self@.items.len() && self@.items[b as int].0.same_item(*key),
                None => forall|b: int| 0 <= b < self@.items.len() ==> !(#[trigger] self@.items[b]).0.same_item(*key),
            },
    {
        let mut b: usize = 0;
        while b < self.items.len()
            invariant
                b <= self@.items.len(),
                self@.items.len() == self.items@.len(),
                forall|c: int| 0 <= c < b ==> !(#[trigger] self@.items[c]).0.same_item(*key),
            decreases self@.items.len() - b,
        {
            proof {
                assert(self@.items[b as int] == (self.items@[b as int].0, self.items@[b as int].1@));
            }
            if self.items[b].0.production == key.production && self.items[b].0.dot == key.dot {
                return Some(b);
            }
            b = b + 1;
        }
        None
    }

    /// Adds the look ahead sets of the kernel items of `item_set` to those of
    /// the same items of this state. A processed state that gains a token
    /// needs reprocessing.
    #[verifier::rlimit(40)]
    pub fn merge_lookahead_sets(&mut self, item_set: &Vec<(GrammarItemKey, TokenSet)>)
        requires
            old(self).wf(),
            forall|c: int| 0 <= c < item_set@.len() ==> (#[trigger] item_set@[c]).1.wf(),
            forall|c: int| 0 <= c < item_set@.len() && ((#[trigger] item_set@[c]).0.dot > 0 || item_set@[c].0.is_start)
                ==> exists|b: int| 0 <= b < old(self)@.items.len() && (#[trigger] old(self)@.items[b]).0.same_item(item_set@[c].0),
        ensures
            final(self).wf(),
            final(self)@ == (ParserStateView {
                items: final(self)@.items,
                processed_state: final(self)@.processed_state,
                ..old(self)@
            }),
            final(self)@.items.len() == old(self)@.items.len(),
            forall|b: int| 0 <= b < old(self)@.items.len() ==> (#[trigger] final(self)@.items[b]).0 == old(self)@.items[b].0,
            forall|b: int, t: TokenView| 0 <= b < old(self)@.items.len() ==> (#[trigger] has_token(final(self)@.items[b].1, t)
                <==> has_token(old(self)@.items[b].1, t) || merged_look_ahead_has(old(self)@, items_view(item_set@), b, t)),
            final(self)@.processed_state == if old(self)@.processed_state == ProcessedState::Processed
                && merge_adds(old(self)@, items_view(item_set@)) {
                ProcessedState::NeedsReprocessing
            } else {
                old(self)@.processed_state
            },
    {
        let ghost s0 = self@;
        let ghost other = items_view(item_set@);
        let mut additions = false;
        let mut c: usize = 0;
        while c < item_set.len()
            invariant
                c <= item_set@.len(),
                other == items_view(item_set@),
                forall|x: int| 0 <= x < item_set@.len() ==> (#[trigger] item_set@[x]).1.wf(),
                forall|x: int| 0 <= x < item_set@.len() && ((#[trigger] item_set@[x]).0.dot > 0 || item_set@[x].0.is_start)
                    ==> exists|b: int| 0 <= b < s0.items.len() && (#[trigger] s0.items[b]).0.same_item(item_set@[x].0),
                self.wf(),
                self@ == (ParserStateView { items: self@.items, ..s0 }),
                self@.items.len() == s0.items.len(),
                items_ordered(s0.items),
                forall|b: int| 0 <= b < s0.items.len() ==> (#[trigger] self@.items[b]).0 == s0.items[b].0,
                forall|b: int, t: TokenView| 0 <= b < s0.items.len() ==> (#[trigger] has_token(self@.items[b].1, t)
                    <==> has_token(s0.items[b].1, t) || merged_look_ahead_has(s0, other.take(c as int), b, t)),
                additions == merge_adds(s0, other.take(c as int)),
            decreases item_set@.len() - c,
        {
            let ghost before = self@;
            proof {
                assert(other[c as int] == (item_set@[c as int].0, item_set@[c as int].1@));
                assert(other.take(c + 1) =~= other.take(c as int).push(other[c as int]));
            }
            let key = item_set[c].0;
            if key.is_kernel_item() {
                match self.find_item(&key) {
                    Some(b) => {
                        proof {
                            assert(self.items@[b as int].1.wf());
                            assert(self@.items[b as int] == (self.items@[b as int].0, self.items@[b as int].1@));
                        }
                        let mut set = self.items[b].1.snapshot();
                        let ghost pre = set@;
                        let grew = set.union_with(&item_set[c].1);
                        proof {
                            assert(pre == before.items[b as int].1);
                            assert(other[c as int].1 == item_set@[c as int].1@);
                            assert(grew == exists|k: int| 0 <= k < other[c as int].1.len() && !has_token(before.items[b as int].1, #[trigger] other[c as int].1[k])) by {
                                if grew {
                                    let k = choose|k: int| 0 <= k < item_set@[c as int].1@.len() && !has_token(pre, #[trigger] item_set@[c as int].1@[k]);
                                    assert(!has_token(before.items[b as int].1, other[c as int].1[k]));
                                }
                                if exists|k: int| 0 <= k < other[c as int].1.len() && !has_token(before.items[b as int].1, #[trigger] other[c as int].1[k]) {
                                    let k = choose|k: int| 0 <= k < other[c as int].1.len() && !has_token(before.items[b as int].1, #[trigger] other[c as int].1[k]);
                                    assert(!has_token(pre, item_set@[c as int].1@[k]));
                                }
                            }
                        }
                        self.set_look_ahead(b, set);
                        if grew {
                            additions = true;
                        }
                        proof {
                            lemma_merge_step(s0, before, self@, other, c as int, b as int, grew, additions);
                        }
                    },
                    None => {
                        proof {
                            let b = choose|b: int| 0 <= b < s0.items.len() && (#[trigger] s0.items[b]).0.same_item(item_set@[c as int].0);
                            assert(self@.items[b].0 == s0.items[b].0);
                        }
                    },
                }
            } else {
                proof {
                    lemma_merge_skip(s0, before, other, c as int);
                }
            }
            c = c + 1;
        }
        proof {
            assert(other.take(c as int) =~= other);
        }
        if additions && self.is_processed() {
            self.processed_state = ProcessedState::NeedsReprocessing;
        }
    }
}

/// A non kernel item of `item_set` brings nothing.
proof fn lemma_merge_skip(
    s0: ParserStateView,
    before: ParserStateView,
    other: Seq<(GrammarItemKey, Seq<TokenView>)>,
    c: int,
)
    requires
        0 <= c < other.len(),
        !(other[c].0.dot > 0 || other[c].0.is_start),
    ensures
        forall|b: int, t: TokenView| merged_look_ahead_has(s0, other.take(c + 1), b, t) == merged_look_ahead_has(s0, other.take(c), b, t),
        merge_adds(s0, other.take(c + 1)) == merge_adds(s0, other.take(c)),
{
    let l0 = other.take(c);
    let l1 = other.take(c + 1);
    assert forall|b: int, t: TokenView| merged_look_ahead_has(s0, other.take(c + 1), b, t) == merged_look_ahead_has(s0, other.take(c), b, t) by {
        if merged_look_ahead_has(s0, other.take(c + 1), b, t) {
            let x = choose|x: int| 0 <= x < other.take(c + 1).len() && (#[trigger] other.take(c + 1)[x]).0.same_item(s0.items[b].0)
                && (other.take(c + 1)[x].0.dot > 0 || other.take(c + 1)[x].0.is_start) && has_token(other.take(c + 1)[x].1, t);
            assert(x != c);
            assert(other.take(c)[x] == other.take(c + 1)[x]);
        }
        if merged_look_ahead_has(s0, other.take(c), b, t) {
            let x = choose|x: int| 0 <= x < other.take(c).len() && (#[trigger] other.take(c)[x]).0.same_item(s0.items[b].0)
                && (other.take(c)[x].0.dot > 0 || other.take(c)[x].0.is_start) && has_token(other.take(c)[x].1, t);
            assert(other.take(c)[x] == other.take(c + 1)[x]);
        }
    }
    if merge_adds(s0, l1) {
        let (i, t) = choose|i: int, t: TokenView| 0 <= i < s0.items.len() && #[trigger] merged_look_ahead_has(s0, l1, i, t) && !has_token(s0.items[i].1, t);
        assert(merged_look_ahead_has(s0, l0, i, t));
    }
    if merge_adds(s0, l0) {
        let (i, t) = choose|i: int, t: TokenView| 0 <= i < s0.items.len() && #[trigger] merged_look_ahead_has(s0, l0, i, t) && !has_token(s0.items[i].1, t);
        assert(merged_look_ahead_has(s0, l1, i, t));
    }
}

/// Merging the `c`th item of `item_set` into the `b`th item of the state.
proof fn lemma_merge_step(
    s0: ParserStateView,
    before: ParserStateView,
    after: ParserStateView,
    other: Seq<(GrammarItemKey, Seq<TokenView>)>,
    c: int,
    b: int,
    grew: bool,
    additions: bool,
)
    requires
        0 <= c < other.len(),
        other[c].0.dot > 0 || other[c].0.is_start,
        items_ordered(s0.items),
        before.items.len() == s0.items.len(),
        0 <= b < s0.items.len(),
        forall|i: int| 0 <= i < s0.items.len() ==> (#[trigger] before.items[i]).0 == s0.items[i].0,
        before.items[b].0.same_item(other[c].0),
        forall|i: int, t: TokenView| 0 <= i < s0.items.len() ==> (#[trigger] has_token(before.items[i].1, t)
            <==> has_token(s0.items[i].1, t) || merged_look_ahead_has(s0, other.take(c), i, t)),
        after.items == before.items.update(b, (before.items[b].0, after.items[b].1)),
        forall|x: TokenView| #![trigger after.items[b].1.contains(x)] after.items[b].1.contains(x)
            <==> before.items[b].1.contains(x) || (other[c].1.contains(x) && !has_token(before.items[b].1, x)),
        grew == exists|k: int| 0 <= k < other[c].1.len() && !has_token(before.items[b].1, #[trigger] other[c].1[k]),
        additions == (merge_adds(s0, other.take(c)) || grew),
    ensures
        forall|i: int, t: TokenView| 0 <= i < s0.items.len() ==> (#[trigger] has_token(after.items[i].1, t)
            <==> has_token(s0.items[i].1, t) || merged_look_ahead_has(s0, other.take(c + 1), i, t)),
        additions == merge_adds(s0, other.take(c + 1)),
{
    let l0 = other.take(c);
    let l1 = other.take(c + 1);
    assert(l1 =~= l0.push(other[c]));
    assert(s0.items[b].0.same_item(other[c].0));
    // what the new item of the merged list brings
    assert forall|i: int, t: TokenView| 0 <= i < s0.items.len() implies merged_look_ahead_has(s0, l1, i, t)
        == (merged_look_ahead_has(s0, l0, i, t) || (i == b && has_token(other[c].1, t))) by {
        if merged_look_ahead_has(s0, l1, i, t) {
            let x = choose|x: int| 0 <= x < l1.len() && (#[trigger] l1[x]).0.same_item(s0.items[i].0)
                && (l1[x].0.dot > 0 || l1[x].0.is_start) && has_token(l1[x].1, t);
            if x < c {
                assert(l0[x] == l1[x]);
            } else {
                assert(l1[x] == other[c]);
                lemma_items_distinct(s0.items, i, b);
            }
        }
        if merged_look_ahead_has(s0, l0, i, t) {
            let x = choose|x: int| 0 <= x < l0.len() && (#[trigger] l0[x]).0.same_item(s0.items[i].0)
                && (l0[x].0.dot > 0 || l0[x].0.is_start) && has_token(l0[x].1, t);
            assert(l1[x] == l0[x]);
        }
        if i == b && has_token(other[c].1, t) {
            assert(l1[c] == other[c]);
        }
    }
    assert forall|t: TokenView| has_token(after.items[b].1, t) <==> has_token(before.items[b].1, t) || has_token(other[c].1, t) by {
        lemma_union_has(before.items[b].1, other[c].1, after.items[b].1, t);
    }
    assert forall|i: int, t: TokenView| 0 <= i < s0.items.len() implies (#[trigger] has_token(after.items[i].1, t)
        <==> has_token(s0.items[i].1, t) || merged_look_ahead_has(s0, l1, i, t)) by {
        assert(has_token(before.items[i].1, t) <==> has_token(s0.items[i].1, t) || merged_look_ahead_has(s0, l0, i, t));
        assert(merged_look_ahead_has(s0, l1, i, t) == (merged_look_ahead_has(s0, l0, i, t) || (i == b && has_token(other[c].1, t))));
        if i != b {
            assert(after.items[i] == before.items[i]);
        } else {
            assert(has_token(after.items[b].1, t) <==> has_token(before.items[b].1, t) || has_token(other[c].1, t));
        }
    }
    // whether the merged list adds a token
    assert(merge_adds(s0, l1) == (merge_adds(s0, l0) || grew)) by {
        if grew {
            let k = choose|k: int| 0 <= k < other[c].1.len() && !has_token(before.items[b].1, #[trigger] other[c].1[k]);
            let t = other[c].1[k];
            lemma_token_order(t, t, t);
            assert(has_token(other[c].1, t));
            assert(merged_look_ahead_has(s0, l1, b, t));
            assert(!has_token(s0.items[b].1, t));
        }
        if merge_adds(s0, l0) {
            let (i, t) = choose|i: int, t: TokenView| 0 <= i < s0.items.len() && #[trigger] merged_look_ahead_has(s0, l0, i, t) && !has_token(s0.items[i].1, t);
            assert(merged_look_ahead_has(s0, l1, i, t));
        }
        if merge_adds(s0, l1) && !merge_adds(s0, l0) {
            let (i, t) = choose|i: int, t: TokenView| 0 <= i < s0.items.len() && #[trigger] merged_look_ahead_has(s0, l1, i, t) && !has_token(s0.items[i].1, t);
            assert(!merged_look_ahead_has(s0, l0, i, t));
            assert(i == b && has_token(other[c].1, t));
            assert(!has_token(before.items[b].1, t));
            let k = choose|k: int| 0 <= k < other[c].1.len() && same_token(other[c].1[k], t);
            if has_token(before.items[b].1, other[c].1[k]) {
                let w = choose|w: int| 0 <= w < before.items[b].1.len() && same_token(before.items[b].1[w], other[c].1[k]);
                lemma_token_order(before.items[b].1[w], other[c].1[k], t);
                assert(same_token(before.items[b].1[w], t));
            }
        }
    }
}


/// The state shifts no token and reduces on no token.
pub open spec fn look_ahead_is_empty(s: ParserStateView) -> bool {
    &&& s.shifts.len() == 0
    &&& forall|b: int| 0 <= b < s.items.len() && (#[trigger] s.items[b]).0.reducible() ==> s.items[b].1.len() == 0
}

impl ParserState {
    /// Whether the state has no action on any token.
    pub fn has_empty_look_ahead_set(&self) -> (r: bool)
        ensures
            r == look_ahead_is_empty(self@),
    {
        if self.shift_list.len() > 0 {
            return false;
        }
        let mut b: usize = 0;
        while b < self.items.len()
            invariant
                b <= self.items@.len(),
                self@.items.len() == self.items@.len(),
                forall|c: int| 0 <= c < b && (#[trigger] self@.items[c]).0.reducible() ==> self@.items[c].1.len() == 0,
            decreases self.items@.len() - b,
        {
            proof {
                assert(self@.items[b as int] == (self.items@[b as int].0, self.items@[b as int].1@));
            }
            if self.items[b].0.is_reducible() && self.items[b].1.len() > 0 {
                return false;
            }
            b = b + 1;
        }
        true
    }
}

} // verus!
