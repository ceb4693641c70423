//! Properties of the library that relate several of its operations.

use vstd::prelude::*;

use crate::parser::{ParseStackView, Symbol};
use crate::state::{
    free_of_reduce_reduce_conflicts, free_of_shift_reduce_conflicts,
    look_aheads_trimmed, ParserStateView,
};
use crate::terminal::{has_token, lemma_token_order, same_token, strictly_ordered, TokenView};

verus! {

/// Once a token has been inserted into a token set, the set holds it.
pub proof fn law_insert_then_contains(before: Seq<TokenView>, after: Seq<TokenView>, t: TokenView, added: bool)
    requires
        added == !has_token(before, t),
        added ==> exists|p: int| 0 <= p <= before.len() && after == before.insert(p, t),
        !added ==> after == before,
    ensures
        has_token(after, t),
{
    if added {
        let p = choose|p: int| 0 <= p <= before.len() && after == before.insert(p, t);
        assert(after[p] == t);
        lemma_token_order(t, t, t);
    }
}

/// Once a token has been removed from a token set, the set no longer holds it.
pub proof fn law_remove_then_not_contains(before: Seq<TokenView>, after: Seq<TokenView>, t: TokenView)
    requires
        strictly_ordered(before),
        forall|x: TokenView| #![trigger after.contains(x)] after.contains(x) <==> before.contains(x) && !same_token(x, t),
    ensures
        !has_token(after, t),
{
    if has_token(after, t) {
        let k = choose|k: int| 0 <= k < after.len() && same_token(after[k], t);
        assert(after.contains(after[k]));
    }
}

/// Inserting a token and then removing it gives back the set's members.
pub proof fn law_insert_then_remove(
    before: Seq<TokenView>,
    inserted: Seq<TokenView>,
    removed: Seq<TokenView>,
    t: TokenView,
)
    requires
        strictly_ordered(before),
        !has_token(before, t),
        exists|p: int| 0 <= p <= before.len() && inserted == before.insert(p, t),
        forall|x: TokenView| #![trigger removed.contains(x)] removed.contains(x) <==> inserted.contains(x) && !same_token(x, t),
    ensures
        forall|x: TokenView| #![trigger removed.contains(x)] removed.contains(x) <==> before.contains(x),
{
    let p = choose|p: int| 0 <= p <= before.len() && inserted == before.insert(p, t);
    assert forall|x: TokenView| #![trigger removed.contains(x)] removed.contains(x) <==> before.contains(x) by {
        if before.contains(x) {
            let k = choose|k: int| 0 <= k < before.len() && before[k] == x;
            if k < p {
                assert(inserted[k] == x);
            } else {
                assert(inserted[k + 1] == x);
            }
            if same_token(x, t) {
                assert(has_token(before, t));
            }
        }
        if removed.contains(x) {
            let k = choose|k: int| 0 <= k < inserted.len() && inserted[k] == x;
            if k < p {
                assert(before[k] == x);
            } else if k > p {
                assert(before[k - 1] == x);
            } else {
                lemma_token_order(x, x, x);
            }
        }
    }
}

/// Pushing a symbol onto the parse stack and popping one entry gives back
/// the stack as it was, and the pushed attribute.
pub proof fn law_push_then_pop<N, A>(
    before: ParseStackView<N, A>,
    pushed: ParseStackView<N, A>,
    popped: ParseStackView<N, A>,
    returned: Seq<A>,
    entry: (Symbol<N>, u32),
    attribute: A,
)
    requires
        before.states.len() == before.attributes.len() + 1,
        pushed.states == before.states.push(entry),
        pushed.attributes == before.attributes.push(attribute),
        pushed.last_error_state == before.last_error_state,
        popped.states == pushed.states.take(pushed.states.len() - 1),
        popped.attributes == pushed.attributes.take(pushed.attributes.len() - 1),
        returned == pushed.attributes.skip(pushed.attributes.len() - 1),
        popped.last_error_state == pushed.last_error_state,
    ensures
        popped == before,
        returned == seq![attribute],
{
    assert(popped.states =~= before.states);
    assert(popped.attributes =~= before.attributes);
    assert(returned =~= seq![attribute]);
}

/// Resolving the shift/reduce conflicts of a state and then its
/// reduce/reduce conflicts leaves it free of both kinds of conflict: the
/// second resolution only removes look ahead tokens and keeps the shifts.
pub proof fn law_resolution_leaves_no_conflicts(
    resolved_shifts: ParserStateView,
    resolved_both: ParserStateView,
)
    requires
        free_of_shift_reduce_conflicts(resolved_shifts),
        look_aheads_trimmed(resolved_shifts, resolved_both),
        resolved_both.shifts == resolved_shifts.shifts,
        free_of_reduce_reduce_conflicts(resolved_both),
    ensures
        free_of_shift_reduce_conflicts(resolved_both),
        free_of_reduce_reduce_conflicts(resolved_both),
{
    assert forall|k: int, i: int|
        0 <= k < resolved_both.shifts.len() && 0 <= i < resolved_both.items.len() && (#[trigger] resolved_both.items[i]).0.reducible()
        implies !has_token(resolved_both.items[i].1, (#[trigger] resolved_both.shifts[k]).0) by {
        assert(resolved_both.items[i].0 == resolved_shifts.items[i].0);
        assert(!has_token(resolved_shifts.items[i].1, resolved_shifts.shifts[k].0));
        if has_token(resolved_both.items[i].1, resolved_both.shifts[k].0) {
            let w = choose|w: int| 0 <= w < resolved_both.items[i].1.len() && same_token(resolved_both.items[i].1[w], resolved_both.shifts[k].0);
            let x = resolved_both.items[i].1[w];
            assert(resolved_both.items[i].1.contains(x));
            assert(resolved_shifts.items[i].1.contains(x));
            let w2 = choose|w2: int| 0 <= w2 < resolved_shifts.items[i].1.len() && resolved_shifts.items[i].1[w2] == x;
            assert(same_token(resolved_shifts.items[i].1[w2], resolved_shifts.shifts[k].0));
        }
    }
}

} // verus!
