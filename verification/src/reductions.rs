//! The reductions of a parser state: its reducible look ahead tokens
//! grouped by the productions that reduce on them.

use vstd::prelude::*;

use crate::firsts::{add_token, lemma_has_same};
use crate::order::Order;
use crate::state::{items_view, reducible_look_ahead_has, GrammarItemKey, ParserState, ParserStateView};
use crate::terminal::{has_token, same_token, Token, TokenSet, TokenView};

verus! {

/// The identifiers of the productions of the reducible items of `items`
/// whose look ahead sets hold a token like `t`, in the order of the items.
pub open spec fn reducers(items: Seq<(GrammarItemKey, Seq<TokenView>)>, t: TokenView) -> Seq<u32>
    decreases items.len(),
{
    if items.len() == 0 {
        Seq::empty()
    } else {
        let rest = reducers(items.drop_last(), t);
        if items.last().0.reducible() && has_token(items.last().1, t) {
            rest.push(items.last().0.production)
        } else {
            rest
        }
    }
}

/// Lists of identifiers are ordered element by element, a list before
/// its extensions.
pub open spec fn ids_lt(a: Seq<u32>, b: Seq<u32>) -> bool
    decreases a.len(),
{
    if a.len() == 0 {
        b.len() > 0
    } else if b.len() == 0 {
        false
    } else if a[0] != b[0] {
        a[0] < b[0]
    } else {
        ids_lt(a.drop_first(), b.drop_first())
    }
}

/// No identifier list comes before itself.
pub proof fn lemma_ids_irreflexive(a: Seq<u32>)
    ensures
        !ids_lt(a, a),
    decreases a.len(),
{
    if a.len() > 0 {
        lemma_ids_irreflexive(a.drop_first());
    }
}

/// Of two different identifier lists exactly one comes first.
pub proof fn lemma_ids_total(a: Seq<u32>, b: Seq<u32>)
    ensures
        ids_lt(a, b) ==> !ids_lt(b, a),
        a != b ==> ids_lt(a, b) || ids_lt(b, a),
    decreases a.len(),
{
    if a.len() > 0 && b.len() > 0 {
        lemma_ids_total(a.drop_first(), b.drop_first());
        if a != b && a[0] == b[0] {
            assert(a.drop_first() != b.drop_first()) by {
                if a.drop_first() == b.drop_first() {
                    assert(a =~= seq![a[0]] + a.drop_first());
                    assert(b =~= seq![b[0]] + b.drop_first());
                }
            }
        }
    }
    if a.len() == 0 && b.len() == 0 {
        assert(a =~= b);
    }
}

/// The order of identifier lists is transitive.
pub proof fn lemma_ids_transitive(a: Seq<u32>, b: Seq<u32>, c: Seq<u32>)
    ensures
        ids_lt(a, b) && ids_lt(b, c) ==> ids_lt(a, c),
    decreases a.len(),
{
    if a.len() > 0 && b.len() > 0 && c.len() > 0 {
        lemma_ids_transitive(a.drop_first(), b.drop_first(), c.drop_first());
    }
}

/// The order of identifier lists is a strict total order.
pub proof fn lemma_ids_order(a: Seq<u32>, b: Seq<u32>, c: Seq<u32>)
    ensures
        !ids_lt(a, a),
        ids_lt(a, b) ==> !ids_lt(b, a),
        a != b ==> ids_lt(a, b) || ids_lt(b, a),
        ids_lt(a, b) && ids_lt(b, c) ==> ids_lt(a, c),
{
    lemma_ids_irreflexive(a);
    lemma_ids_total(a, b);
    lemma_ids_transitive(a, b, c);
}

/// Which productions reduce on a token is a matter of its kind and name.
pub proof fn lemma_reducers_same(items: Seq<(GrammarItemKey, Seq<TokenView>)>, t: TokenView, u: TokenView)
    requires
        same_token(t, u),
    ensures
        reducers(items, t) == reducers(items, u),
    decreases items.len(),
{
    if items.len() > 0 {
        lemma_reducers_same(items.drop_last(), t, u);
        lemma_has_same(items.last().1, t, u);
    }
}

/// A state's reductions: each list of productions with the tokens on which
/// exactly those productions reduce, the lists in increasing order; and
/// all the tokens on which some production reduces.
pub struct Reductions {
    pub reductions: Vec<(Vec<u32>, TokenSet)>,
    pub expected_tokens: TokenSet,
}

/// Abstract values of the groups of reductions.
pub open spec fn reductions_view(r: Seq<(Vec<u32>, TokenSet)>) -> Seq<(Seq<u32>, Seq<TokenView>)> {
    r.map_values(|e: (Vec<u32>, TokenSet)| (e.0@, e.1@))
}

/// The groups `red` are the reductions of state `st` on the tokens of
/// `expected` that are like tokens of `among`.
pub open spec fn groups_exact(
    st: ParserStateView,
    red: Seq<(Seq<u32>, Seq<TokenView>)>,
    among: Seq<TokenView>,
) -> bool {
    &&& forall|k: int, t: TokenView| 0 <= k < red.len() ==> (#[trigger] has_token(red[k].1, t) <==> (has_token(among, t)
        && reducers(st.items, t) == red[k].0))
    &&& forall|t: TokenView| #[trigger] has_token(among, t) ==> exists|k: int| 0 <= k < red.len() && red[k].0 == reducers(st.items, t)
    &&& forall|i: int, j: int| 0 <= i < j < red.len() ==> ids_lt(#[trigger] red[i].0, #[trigger] red[j].0)
    &&& forall|k: int| 0 <= k < red.len() ==> (#[trigger] red[k]).1.len() > 0
}

/// Some production reduces on each token that some reducible item has in
/// its look ahead set.
pub proof fn lemma_reducers_nonempty(items: Seq<(GrammarItemKey, Seq<TokenView>)>, t: TokenView)
    requires
        exists|b: int| 0 <= b < items.len() && (#[trigger] items[b]).0.reducible() && has_token(items[b].1, t),
    ensures
        reducers(items, t).len() > 0,
    decreases items.len(),
{
    let b = choose|b: int| 0 <= b < items.len() && (#[trigger] items[b]).0.reducible() && has_token(items[b].1, t);
    if b < items.len() - 1 {
        assert(items.drop_last()[b] == items[b]);
        lemma_reducers_nonempty(items.drop_last(), t);
    }
}

impl ParserState {
    /// The productions of the reducible items whose look ahead sets hold a
    /// token like `token`, in order.
    pub fn reducers_of(&self, token: &Token) -> (r: Vec<u32>)
        requires
            self.wf(),
        ensures
            r@ == reducers(self@.items, token@),
    {
        let items = self.grammar_items();
        let ghost v = self@.items;
        let mut r: Vec<u32> = Vec::new();
        let mut i: usize = 0;
        while i < items.len()
            invariant
                v == self@.items,
                items_view(items@) == v,
                forall|j: int| 0 <= j < items@.len() ==> (#[trigger] items@[j]).1.wf(),
                i <= items@.len(),
                r@ == reducers(v.take(i as int), token@),
            decreases items@.len() - i,
        {
            proof {
                assert(v[i as int] == (items@[i as int].0, items@[i as int].1@));
                assert(v.take(i + 1).drop_last() =~= v.take(i as int));
                assert(v.take(i + 1).last() == v[i as int]);
                assert(items@[i as int].1.wf());
            }
            if items[i].0.is_reducible() && items[i].1.contains(token) {
                r.push(items[i].0.production);
            }
            i = i + 1;
        }
        proof {
            assert(v.take(i as int) =~= v);
        }
        r
    }
}

/// Where identifier list `a` stands relative to `b`.
pub fn compare_ids(a: &Vec<u32>, b: &Vec<u32>) -> (r: Order)
    ensures
        (r == Order::Less) == ids_lt(a@, b@),
        (r == Order::Equal) == (a@ == b@),
        (r == Order::Greater) == ids_lt(b@, a@),
{
    let mut i: usize = 0;
    proof {
        assert(a@.skip(0) =~= a@);
        assert(b@.skip(0) =~= b@);
    }
    while i < a.len() && i < b.len()
        invariant
            i <= a@.len(),
            i <= b@.len(),
            a@.take(i as int) == b@.take(i as int),
            ids_lt(a@, b@) == ids_lt(a@.skip(i as int), b@.skip(i as int)),
            ids_lt(b@, a@) == ids_lt(b@.skip(i as int), a@.skip(i as int)),
        decreases a@.len() - i,
    {
        proof {
            assert(a@.skip(i as int)[0] == a@[i as int]);
            assert(b@.skip(i as int)[0] == b@[i as int]);
            assert(a@.skip(i as int).drop_first() =~= a@.skip(i + 1));
            assert(b@.skip(i as int).drop_first() =~= b@.skip(i + 1));
        }
        if a[i] < b[i] {
            proof {
                lemma_ids_order(a@, b@, b@);
            }
            return Order::Less;
        }
        if b[i] < a[i] {
            proof {
                lemma_ids_order(a@, b@, b@);
            }
            return Order::Greater;
        }
        proof {
            assert(a@.take(i + 1) =~= a@.take(i as int).push(a@[i as int]));
            assert(b@.take(i + 1) =~= b@.take(i as int).push(b@[i as int]));
        }
        i = i + 1;
    }
    proof {
        lemma_ids_order(a@, b@, b@);
    }
    if a.len() == b.len() {
        proof {
            assert(a@ =~= a@.take(i as int));
            assert(b@ =~= b@.take(i as int));
        }
        Order::Equal
    } else if a.len() < b.len() {
        proof {
            assert(a@.skip(i as int).len() == 0);
            assert(a@ != b@);
        }
        Order::Less
    } else {
        proof {
            assert(b@.skip(i as int).len() == 0);
            assert(a@ != b@);
        }
        Order::Greater
    }
}

/// A token is held by a sequence with one more token when the sequence
/// holds it or the new token is like it.
pub proof fn lemma_has_push(s: Seq<TokenView>, t: TokenView, u: TokenView)
    ensures
        has_token(s.push(t), u) == (has_token(s, u) || same_token(t, u)),
{
    if has_token(s.push(t), u) {
        let j = choose|j: int| 0 <= j < s.push(t).len() && same_token(#[trigger] s.push(t)[j], u);
        if j < s.len() {
            assert(s.push(t)[j] == s[j]);
        }
    }
    if has_token(s, u) {
        let j = choose|j: int| 0 <= j < s.len() && same_token(#[trigger] s[j], u);
        assert(s.push(t)[j] == s[j]);
    }
    if same_token(t, u) {
        assert(s.push(t)[s.len() as int] == t);
    }
}

/// Adding a token to the group of its productions keeps the groups exact.
proof fn lemma_group_add(
    st: ParserStateView,
    red: Seq<(Seq<u32>, Seq<TokenView>)>,
    red2: Seq<(Seq<u32>, Seq<TokenView>)>,
    among: Seq<TokenView>,
    t: TokenView,
    k: int,
)
    requires
        groups_exact(st, red, among),
        0 <= k < red.len(),
        red[k].0 == reducers(st.items, t),
        red2.len() == red.len(),
        forall|j: int| 0 <= j < red.len() && j != k ==> red2[j] == red[j],
        red2[k].0 == red[k].0,
        forall|u: TokenView| #[trigger] has_token(red2[k].1, u) <==> has_token(red[k].1, u) || same_token(t, u),
    ensures
        groups_exact(st, red2, among.push(t)),
{
    assert forall|j: int, u: TokenView| 0 <= j < red2.len() implies (#[trigger] has_token(red2[j].1, u) <==> (has_token(among.push(t), u)
        && reducers(st.items, u) == red2[j].0)) by {
        lemma_has_push(among, t, u);
        if same_token(t, u) {
            lemma_reducers_same(st.items, t, u);
            if j != k {
                lemma_ids_order(red[j].0, red[k].0, red[k].0);
                if j < k {
                    assert(ids_lt(red[j].0, red[k].0));
                } else {
                    assert(ids_lt(red[k].0, red[j].0));
                }
            }
        }
    }
    assert forall|u: TokenView| #[trigger] has_token(among.push(t), u) implies exists|j: int| 0 <= j < red2.len() && red2[j].0 == reducers(st.items, u) by {
        lemma_has_push(among, t, u);
        if has_token(among, u) {
            let j = choose|j: int| 0 <= j < red.len() && red[j].0 == reducers(st.items, u);
            assert(red2[j].0 == red[j].0);
        } else {
            lemma_reducers_same(st.items, t, u);
            assert(red2[k].0 == reducers(st.items, u));
        }
    }
    assert forall|a: int, b: int| 0 <= a < b < red2.len() implies ids_lt(#[trigger] red2[a].0, #[trigger] red2[b].0) by {
        assert(ids_lt(red[a].0, red[b].0));
    }
    assert forall|j: int| 0 <= j < red2.len() implies (#[trigger] red2[j]).1.len() > 0 by {
        if j == k {
            assert(has_token(red2[k].1, t)) by {
                assert(crate::terminal::same_token(t, t));
            }
        } else {
            assert(red2[j] == red[j]);
        }
    }
}

/// Adding a new group for the productions of a token that no group has
/// keeps the groups exact.
proof fn lemma_group_insert(
    st: ParserStateView,
    red: Seq<(Seq<u32>, Seq<TokenView>)>,
    among: Seq<TokenView>,
    t: TokenView,
    k: int,
    set: Seq<TokenView>,
)
    requires
        groups_exact(st, red, among),
        0 <= k <= red.len(),
        forall|j: int| 0 <= j < k ==> ids_lt(#[trigger] red[j].0, reducers(st.items, t)),
        forall|j: int| k <= j < red.len() ==> ids_lt(reducers(st.items, t), #[trigger] red[j].0),
        forall|u: TokenView| #[trigger] has_token(set, u) <==> same_token(t, u),
    ensures
        groups_exact(st, red.insert(k, (reducers(st.items, t), set)), among.push(t)),
{
    let ids = reducers(st.items, t);
    let red2 = red.insert(k, (ids, set));
    assert forall|j: int| 0 <= j < red.len() implies red[j].0 != ids by {
        lemma_ids_order(red[j].0, ids, ids);
        lemma_ids_order(ids, red[j].0, red[j].0);
    }
    assert forall|j: int, u: TokenView| 0 <= j < red2.len() implies (#[trigger] has_token(red2[j].1, u) <==> (has_token(among.push(t), u)
        && reducers(st.items, u) == red2[j].0)) by {
        lemma_has_push(among, t, u);
        if same_token(t, u) {
            lemma_reducers_same(st.items, t, u);
        }
        if j == k {
            if has_token(among, u) && reducers(st.items, u) == ids {
                let jj = choose|jj: int| 0 <= jj < red.len() && red[jj].0 == reducers(st.items, u);
            }
        } else {
            let jj = if j < k { j } else { j - 1 };
            assert(red2[j] == red[jj]);
        }
    }
    assert forall|u: TokenView| #[trigger] has_token(among.push(t), u) implies exists|j: int| 0 <= j < red2.len() && red2[j].0 == reducers(st.items, u) by {
        lemma_has_push(among, t, u);
        if has_token(among, u) {
            let jj = choose|jj: int| 0 <= jj < red.len() && red[jj].0 == reducers(st.items, u);
            if jj < k {
                assert(red2[jj] == red[jj]);
            } else {
                assert(red2[jj + 1] == red[jj]);
            }
        } else {
            lemma_reducers_same(st.items, t, u);
            assert(red2[k].0 == reducers(st.items, u));
        }
    }
    assert forall|a: int, b: int| 0 <= a < b < red2.len() implies ids_lt(#[trigger] red2[a].0, #[trigger] red2[b].0) by {
        if b < k {
            assert(ids_lt(red[a].0, red[b].0));
        } else if a > k {
            assert(ids_lt(red[a - 1].0, red[b - 1].0));
        } else if a == k {
            assert(red2[b] == red[b - 1]);
        } else if b == k {
            assert(red2[a] == red[a]);
        } else {
            assert(red2[a] == red[a] && red2[b] == red[b - 1]);
            assert(ids_lt(red[a].0, red[b - 1].0));
        }
    }
    assert forall|j: int| 0 <= j < red2.len() implies (#[trigger] red2[j]).1.len() > 0 by {
        if j == k {
            assert(has_token(set, t)) by {
                assert(crate::terminal::same_token(t, t));
            }
        } else if j < k {
            assert(red2[j] == red[j]);
        } else {
            assert(red2[j] == red[j - 1]);
        }
    }
}

impl ParserState {
    /// The reductions of the state: the tokens on which some production
    /// reduces, and those tokens grouped by the list of productions that
    /// reduce on them, the lists in increasing order.
    #[verifier::rlimit(40)]
    pub fn reductions(&self) -> (r: Reductions)
        requires
            self.wf(),
        ensures
            r.expected_tokens.wf(),
            forall|t: TokenView| #[trigger] has_token(r.expected_tokens@, t) <==> reducible_look_ahead_has(self@, t),
            forall|k: int| 0 <= k < r.reductions@.len() ==> (#[trigger] r.reductions@[k]).1.wf(),
            groups_exact(self@, reductions_view(r.reductions@), r.expected_tokens@),
    {
        let expected_tokens = self.reducible_look_ahead_set();
        let tokens = expected_tokens.iter();
        let ghost ex = expected_tokens@;
        let mut reductions: Vec<(Vec<u32>, TokenSet)> = Vec::new();
        let mut i: usize = 0;
        proof {
            assert(ex.take(0) =~= Seq::<TokenView>::empty());
            assert(reductions_view(reductions@) =~= Seq::<(Seq<u32>, Seq<TokenView>)>::empty());
        }
        while i < tokens.len()
            invariant
                self.wf(),
                ex == expected_tokens@,
                tokens@.map_values(|t: Token| t@) == ex,
                i <= tokens@.len(),
                forall|k: int| 0 <= k < reductions@.len() ==> (#[trigger] reductions@[k]).1.wf(),
                groups_exact(self@, reductions_view(reductions@), ex.take(i as int)),
            decreases tokens@.len() - i,
        {
            let ghost red = reductions_view(reductions@);
            let ghost t = tokens@[i as int]@;
            proof {
                assert(ex[i as int] == t);
                assert(ex.take(i + 1) =~= ex.take(i as int).push(t));
            }
            let ids = self.reducers_of(&tokens[i]);
            let mut k: usize = 0;
            while k < reductions.len() && compare_ids(&reductions[k].0, &ids) == Order::Less
                invariant
                    k <= reductions@.len(),
                    red == reductions_view(reductions@),
                    forall|j: int| 0 <= j < k ==> ids_lt(#[trigger] red[j].0, ids@),
                decreases reductions@.len() - k,
            {
                proof {
                    assert(red[k as int].0 == reductions@[k as int].0@);
                }
                k = k + 1;
            }
            proof {
                if k < reductions@.len() {
                    assert(red[k as int].0 == reductions@[k as int].0@);
                }
            }
            if k < reductions.len() && compare_ids(&reductions[k].0, &ids) == Order::Equal {
                let mut set = reductions[k].1.snapshot();
                proof {
                    assert(reductions@[k as int].1.wf());
                }
                add_token(&mut set, &tokens[i]);
                let ghost before = reductions@;
                reductions.set(k, (ids, set));
                proof {
                    let red2 = reductions_view(reductions@);
                    assert forall|j: int| 0 <= j < red.len() && j != k implies red2[j] == red[j] by {
                        assert(reductions@[j] == before[j]);
                    }
                    lemma_group_add(self@, red, red2, ex.take(i as int), t, k as int);
                    assert forall|j: int| 0 <= j < reductions@.len() implies (#[trigger] reductions@[j]).1.wf() by {
                        if j != k {
                            assert(reductions@[j] == before[j]);
                        }
                    }
                }
            } else {
                let mut set = TokenSet::new();
                add_token(&mut set, &tokens[i]);
                proof {
                    assert forall|u: TokenView| #[trigger] has_token(set@, u) <==> same_token(t, u) by {
                        if has_token(Seq::<TokenView>::empty(), u) {
                            let j = choose|j: int| 0 <= j < Seq::<TokenView>::empty().len() && same_token(#[trigger] Seq::<TokenView>::empty()[j], u);
                        }
                    }
                    assert forall|j: int| k <= j < red.len() implies ids_lt(ids@, #[trigger] red[j].0) by {
                        lemma_ids_order(red[k as int].0, ids@, ids@);
                        if j > k {
                            assert(ids_lt(red[k as int].0, red[j].0));
                            lemma_ids_order(ids@, red[k as int].0, red[j].0);
                        }
                    }
                }
                let ghost before = reductions@;
                reductions.insert(k, (ids, set));
                proof {
                    let red2 = reductions_view(reductions@);
                    assert(red2 =~= red.insert(k as int, (ids@, set@))) by {
                        assert forall|j: int| 0 <= j < red2.len() implies red2[j] == red.insert(k as int, (ids@, set@))[j] by {
                            if j < k {
                                assert(reductions@[j] == before[j]);
                            } else if j > k {
                                assert(reductions@[j] == before[j - 1]);
                            }
                        }
                    }
                    lemma_group_insert(self@, red, ex.take(i as int), t, k as int, set@);
                    assert forall|j: int| 0 <= j < reductions@.len() implies (#[trigger] reductions@[j]).1.wf() by {
                        if j < k {
                            assert(reductions@[j] == before[j]);
                        } else if j > k {
                            assert(reductions@[j] == before[j - 1]);
                        }
                    }
                }
            }
            i = i + 1;
        }
        proof {
            assert(ex.take(i as int) =~= ex);
        }
        Reductions { reductions, expected_tokens }
    }
}

} // verus!
