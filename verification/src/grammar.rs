//! A grammar specification (its productions with the first tokens of its
//! non terminals) and the closure of sets of grammar items.

use vstd::prelude::*;
use vstd::string::StringExecFns;

use crate::firsts::{
    firsts_view, firsts_within, grammar_terminals, lemma_grammar_terminals, lemma_has_concat,
    lemma_string_first_within, least_firsts, productions_below, rhs_terminals, string_first_has,
    string_transparent, symbols_below, FirstsData,
};
use crate::item_set::{
    absent_count, includes, item_in, items_sound, la_has, la_measure, lemma_absent_mono,
    lemma_includes_refl, lemma_includes_trans, lemma_la_measure_update, merge_item, present,
};
use crate::production::{
    item_key, symbols_view, GrammarSymbol, GrammarSymbolView, Production, ProductionView,
};
use crate::parser::{GrammarError, ProcessedState};
use crate::state::{items_ordered, items_view, GrammarItemKey, ParserState, ParserStateView};
use crate::terminal::{has_token, same_token, TokenSet, TokenView};

verus! {

/// The abstract values of productions.
pub open spec fn productions_view(v: Seq<Production>) -> Seq<ProductionView> {
    v.map_values(|p: Production| p@)
}

/// Each production's identifier is its place in the list.
pub open spec fn productions_numbered(prods: Seq<ProductionView>) -> bool {
    forall|p: int| 0 <= p < prods.len() ==> (#[trigger] prods[p]).ident == p
}

/// The tokens that can be look ahead tokens: those of the grammar and the end token.
pub open spec fn la_universe(prods: Seq<ProductionView>) -> Seq<TokenView> {
    grammar_terminals(prods).push(TokenView::EndToken)
}

/// Each item of `items` is an item of one of the productions.
pub open spec fn keys_valid(prods: Seq<ProductionView>, items: Seq<(GrammarItemKey, Seq<TokenView>)>, start: u32, error: u32) -> bool {
    forall|j: int| 0 <= j < items.len() ==> ({
        let k = (#[trigger] items[j]).0;
        &&& k.production < prods.len()
        &&& k.dot <= prods[k.production as int].right_hand_side.len()
        &&& k == item_key(prods[k.production as int], k.dot, start, error)
    })
}

/// Every look ahead token of `g` is one of `u`.
pub open spec fn la_within(g: Seq<(GrammarItemKey, Seq<TokenView>)>, u: Seq<TokenView>) -> bool {
    forall|j: int, x: TokenView| 0 <= j < g.len() && #[trigger] has_token(g[j].1, x) ==> has_token(u, x)
}

/// The symbol after the dot of item `k` is the left hand side of production `q`.
pub open spec fn closes_into(prods: Seq<ProductionView>, k: GrammarItemKey, q: int) -> bool {
    &&& k.production < prods.len()
    &&& k.dot < prods[k.production as int].right_hand_side.len()
    &&& prods[k.production as int].right_hand_side[k.dot as int] == GrammarSymbolView::NonTerminal(prods[q].left_hand_side)
}

/// The symbols of the production of item `k` after the symbol after the dot.
pub open spec fn item_tail(prods: Seq<ProductionView>, k: GrammarItemKey) -> Seq<GrammarSymbolView> {
    prods[k.production as int].right_hand_side.skip(k.dot + 1)
}

/// Item `k` with look ahead set `la` passes `x` on to the items it closes
/// into: `x` begins what follows the symbol after the dot, followed by a
/// token of `la`.
pub open spec fn passes_on(
    f: Seq<(Seq<TokenView>, bool)>,
    prods: Seq<ProductionView>,
    k: GrammarItemKey,
    la: Seq<TokenView>,
    x: TokenView,
) -> bool {
    ||| (la.len() > 0 && string_first_has(f, item_tail(prods, k), x))
    ||| (string_transparent(f, item_tail(prods, k)) && has_token(la, x))
}

/// The items `g` are closed: each item whose dot stands before a non
/// terminal brings in the items of that non terminal's productions, with
/// the look ahead tokens it passes on.
pub open spec fn items_closed(f: Seq<(Seq<TokenView>, bool)>, prods: Seq<ProductionView>, g: Seq<(GrammarItemKey, Seq<TokenView>)>) -> bool {
    &&& forall|j: int, q: int|
        0 <= j < g.len() && 0 <= q < prods.len() && #[trigger] closes_into(prods, g[j].0, q) && g[j].1.len() > 0
            ==> present(g, q as u32, 0)
    &&& forall|j: int, q: int, x: TokenView|
        0 <= j < g.len() && 0 <= q < prods.len() && #[trigger] closes_into(prods, g[j].0, q)
            && #[trigger] passes_on(f, prods, g[j].0, g[j].1, x) ==> la_has(g, q as u32, 0, x)
}

/// `c` is the closure of `kernel`: the least closed set of items that includes it.
pub open spec fn least_closure(
    f: Seq<(Seq<TokenView>, bool)>,
    prods: Seq<ProductionView>,
    kernel: Seq<(GrammarItemKey, Seq<TokenView>)>,
    c: Seq<(GrammarItemKey, Seq<TokenView>)>,
) -> bool {
    &&& includes(c, kernel)
    &&& items_closed(f, prods, c)
    &&& forall|g: Seq<(GrammarItemKey, Seq<TokenView>)>|
        includes(g, kernel) && #[trigger] items_closed(f, prods, g) ==> includes(g, c)
}

/// The closure of a set of items is fixed up to mutual inclusion: any two
/// closures of one kernel include each other, and a closed set is its own
/// closure, so closing it again adds nothing.
pub proof fn law_closure_unique_and_idempotent(
    f: Seq<(Seq<TokenView>, bool)>,
    prods: Seq<ProductionView>,
    kernel: Seq<(GrammarItemKey, Seq<TokenView>)>,
    c1: Seq<(GrammarItemKey, Seq<TokenView>)>,
    c2: Seq<(GrammarItemKey, Seq<TokenView>)>,
)
    requires
        least_closure(f, prods, kernel, c1),
        least_closure(f, prods, kernel, c2),
    ensures
        includes(c1, c2) && includes(c2, c1),
        items_closed(f, prods, kernel) ==> includes(c1, kernel) && includes(kernel, c1),
        least_closure(f, prods, c1, c1),
{
    lemma_includes_refl(kernel);
    lemma_includes_refl(c1);
    assert forall|g: Seq<(GrammarItemKey, Seq<TokenView>)>| includes(g, c1) && #[trigger] items_closed(f, prods, g)
        implies includes(g, c1) by {}
}

/// Items `new` grew from `old`: by new items (`inserted`) or, with the same
/// items, by look ahead tokens; `changed` says whether anything grew.
pub open spec fn grows(
    old: Seq<(GrammarItemKey, Seq<TokenView>)>,
    new: Seq<(GrammarItemKey, Seq<TokenView>)>,
    inserted: bool,
    changed: bool,
    u: Seq<TokenView>,
    n: nat,
) -> bool {
    &&& includes(new, old)
    &&& absent_count(new, n) <= absent_count(old, n)
    &&& inserted ==> absent_count(new, n) < absent_count(old, n)
    &&& !inserted ==> new.len() == old.len() && (forall|j: int| 0 <= j < old.len() ==> (#[trigger] new[j]).0 == old[j].0)
        && la_measure(new, u) <= la_measure(old, u)
    &&& !inserted && changed ==> la_measure(new, u) < la_measure(old, u)
    &&& inserted ==> changed
    &&& !changed ==> new == old
}

/// What an including set holds of the included one.
pub proof fn lemma_includes_facts(a: Seq<(GrammarItemKey, Seq<TokenView>)>, b: Seq<(GrammarItemKey, Seq<TokenView>)>)
    requires
        includes(a, b),
    ensures
        forall|p: u32, d: usize| #[trigger] present(b, p, d) ==> present(a, p, d),
        forall|p: u32, d: usize, x: TokenView| #[trigger] la_has(b, p, d, x) ==> la_has(a, p, d, x),
{
    assert forall|p: u32, d: usize| #[trigger] present(b, p, d) implies present(a, p, d) by {
        let j = choose|j: int| 0 <= j < b.len() && (#[trigger] b[j]).0.production == p && b[j].0.dot == d;
        assert(item_in(a, b[j].0, b[j].1));
    }
    assert forall|p: u32, d: usize, x: TokenView| #[trigger] la_has(b, p, d, x) implies la_has(a, p, d, x) by {
        let j = choose|j: int| 0 <= j < b.len() && (#[trigger] b[j]).0.production == p && b[j].0.dot == d && has_token(b[j].1, x);
        assert(item_in(a, b[j].0, b[j].1));
    }
}

/// Growth composes.
pub proof fn lemma_grows_trans(
    a: Seq<(GrammarItemKey, Seq<TokenView>)>,
    b: Seq<(GrammarItemKey, Seq<TokenView>)>,
    c: Seq<(GrammarItemKey, Seq<TokenView>)>,
    i1: bool,
    c1: bool,
    i2: bool,
    c2: bool,
    u: Seq<TokenView>,
    n: nat,
)
    requires
        grows(a, b, i1, c1, u, n),
        grows(b, c, i2, c2, u, n),
    ensures
        grows(a, c, i1 || i2, c1 || c2, u, n),
{
    lemma_includes_trans(c, b, a);
}

/// Growth by nothing.
pub proof fn lemma_grows_refl(a: Seq<(GrammarItemKey, Seq<TokenView>)>, u: Seq<TokenView>, n: nat)
    ensures
        grows(a, a, false, false, u, n),
{
    lemma_includes_refl(a);
}

/// A token of a tail of a right hand side is a token of the right hand side.
pub proof fn lemma_rhs_terminals_skip(s: Seq<GrammarSymbolView>, k: int, t: TokenView)
    requires
        0 <= k <= s.len(),
        has_token(rhs_terminals(s.skip(k)), t),
    ensures
        has_token(rhs_terminals(s), t),
    decreases k,
{
    if k > 0 {
        assert(s.skip(k) =~= s.drop_first().skip(k - 1));
        lemma_rhs_terminals_skip(s.drop_first(), k - 1, t);
        match s[0] {
            GrammarSymbolView::Terminal(x) => {
                lemma_has_concat(seq![x], rhs_terminals(s.drop_first()), t);
            },
            _ => {},
        }
    } else {
        assert(s.skip(0) =~= s);
    }
}

/// Merging an item of a production keeps every item one of a production.
proof fn lemma_merge_keys(
    prods: Seq<ProductionView>,
    before: Seq<(GrammarItemKey, TokenSet)>,
    after: Seq<(GrammarItemKey, TokenSet)>,
    key: GrammarItemKey,
    start: u32,
    error: u32,
)
    requires
        keys_valid(prods, items_view(before), start, error),
        key.production < prods.len(),
        key == item_key(prods[key.production as int], 0, start, error),
        forall|j: int| 0 <= j < after.len() ==> ({
            let k = (#[trigger] after[j]).0;
            (exists|i: int| 0 <= i < before.len() && before[i].0 == k) || k == key
        }),
    ensures
        keys_valid(prods, items_view(after), start, error),
{
    assert forall|j: int| 0 <= j < items_view(after).len() implies ({
        let k = (#[trigger] items_view(after)[j]).0;
        &&& k.production < prods.len()
        &&& k.dot <= prods[k.production as int].right_hand_side.len()
        &&& k == item_key(prods[k.production as int], k.dot, start, error)
    }) by {
        let k = after[j].0;
        assert(items_view(after)[j].0 == k);
        if k != key {
            let i = choose|i: int| 0 <= i < before.len() && before[i].0 == k;
            assert(items_view(before)[i].0 == k);
        }
    }
}

/// Merging look ahead tokens of `u` keeps every look ahead token one of `u`.
proof fn lemma_merge_within(
    before: Seq<(GrammarItemKey, Seq<TokenView>)>,
    after: Seq<(GrammarItemKey, Seq<TokenView>)>,
    key: GrammarItemKey,
    look_ahead: Seq<TokenView>,
    u: Seq<TokenView>,
)
    requires
        la_within(before, u),
        forall|x: TokenView| #[trigger] has_token(look_ahead, x) ==> has_token(u, x),
        forall|p: u32, d: usize, x: TokenView| #[trigger] la_has(after, p, d, x) ==> la_has(before, p, d, x)
            || (p == key.production && d == key.dot && has_token(look_ahead, x)),
    ensures
        la_within(after, u),
{
    assert forall|j: int, x: TokenView| 0 <= j < after.len() && #[trigger] has_token(after[j].1, x) implies has_token(u, x) by {
        assert(la_has(after, after[j].0.production, after[j].0.dot, x));
        if la_has(before, after[j].0.production, after[j].0.dot, x) {
            let i = choose|i: int| 0 <= i < before.len() && (#[trigger] before[i]).0.production == after[j].0.production
                && before[i].0.dot == after[j].0.dot && has_token(before[i].1, x);
        }
    }
}

/// Merging an item is growth.
proof fn lemma_merge_grows(
    before_items: Seq<(GrammarItemKey, TokenSet)>,
    after_items: Seq<(GrammarItemKey, TokenSet)>,
    key: GrammarItemKey,
    look_ahead: Seq<TokenView>,
    ins: bool,
    chg: bool,
    u: Seq<TokenView>,
    n: nat,
)
    requires
        key.production < n,
        key.dot == 0,
        forall|x: TokenView| #[trigger] has_token(look_ahead, x) ==> has_token(u, x),
        item_in(items_view(after_items), key, look_ahead),
        includes(items_view(after_items), items_view(before_items)),
        ins ==> chg && !present(items_view(before_items), key.production, key.dot),
        !ins ==> after_items.len() == before_items.len() && present(items_view(before_items), key.production, key.dot)
            && forall|j: int| 0 <= j < before_items.len() ==> (#[trigger] after_items[j]).0 == before_items[j].0,
        !ins ==> exists|b: int| 0 <= b < before_items.len() && before_items[b].0.same_item(key)
            && (forall|j: int| 0 <= j < before_items.len() && j != b ==> (#[trigger] after_items[j]).1@ == before_items[j].1@)
            && (forall|x: TokenView| #[trigger] has_token(after_items[b].1@, x) <==> has_token(before_items[b].1@, x) || has_token(look_ahead, x))
            && (chg == exists|x: TokenView| has_token(look_ahead, x) && !has_token(before_items[b].1@, x)),
        !chg ==> after_items == before_items,
    ensures
        grows(items_view(before_items), items_view(after_items), ins, chg, u, n),
{
    let before = items_view(before_items);
    let after = items_view(after_items);
    lemma_includes_facts(after, before);
    if ins {
        assert(present(after, key.production, 0));
        lemma_absent_mono(before, after, n, key.production);
    } else {
        lemma_absent_mono(before, after, n, 0);
        let bb = choose|bb: int| 0 <= bb < before_items.len() && before_items[bb].0.same_item(key)
            && (forall|j: int| 0 <= j < before_items.len() && j != bb ==> (#[trigger] after_items[j]).1@ == before_items[j].1@)
            && (forall|x: TokenView| #[trigger] has_token(after_items[bb].1@, x) <==> has_token(before_items[bb].1@, x) || has_token(look_ahead, x))
            && (chg == exists|x: TokenView| has_token(look_ahead, x) && !has_token(before_items[bb].1@, x));
        assert forall|j: int| 0 <= j < before.len() && j != bb implies after[j].1 == before[j].1 by {
            assert(after_items[j].1@ == before_items[j].1@);
        }
        assert forall|j: int| 0 <= j < before.len() implies (#[trigger] after[j]).0 == before[j].0 by {
            assert(after_items[j].0 == before_items[j].0);
        }
        assert(after[bb].1 == after_items[bb].1@ && before[bb].1 == before_items[bb].1@);
        if chg {
            let x = choose|x: TokenView| has_token(look_ahead, x) && !has_token(before_items[bb].1@, x);
            lemma_la_measure_update(before, after, u, bb, x);
        } else {
            lemma_la_measure_update(before, after, u, bb, arbitrary());
        }
    }
}

/// What closing one item adds stays within every closed set of items that
/// holds the item.
proof fn lemma_close_item_least(
    f: Seq<(Seq<TokenView>, bool)>,
    prods: Seq<ProductionView>,
    g: Seq<(GrammarItemKey, Seq<TokenView>)>,
    before: Seq<(GrammarItemKey, Seq<TokenView>)>,
    after: Seq<(GrammarItemKey, Seq<TokenView>)>,
    key: GrammarItemKey,
    la: Seq<TokenView>,
)
    requires
        items_closed(f, prods, g),
        includes(g, before),
        item_in(g, key, la),
        forall|p: u32, d: usize| #[trigger] present(after, p, d) ==> present(before, p, d)
            || (d == 0 && p < prods.len() && closes_into(prods, key, p as int) && la.len() > 0),
        forall|p: u32, d: usize, x: TokenView| #[trigger] la_has(after, p, d, x) ==> la_has(before, p, d, x)
            || (d == 0 && p < prods.len() && closes_into(prods, key, p as int) && passes_on(f, prods, key, la, x)),
    ensures
        includes(g, after),
{
    lemma_includes_facts(g, before);
    assert forall|j: int| 0 <= j < after.len() implies item_in(g, (#[trigger] after[j]).0, after[j].1) by {
        let p = after[j].0.production;
        let d = after[j].0.dot;
        assert(present(after, p, d));
        if !present(before, p, d) {
            assert(has_token(la, la[0])) by {
                assert(crate::terminal::same_token(la[0], la[0]));
            }
            let jg = choose|jg: int| 0 <= jg < g.len() && (#[trigger] g[jg]).0.production == key.production
                && g[jg].0.dot == key.dot && has_token(g[jg].1, la[0]);
            assert(closes_into(prods, g[jg].0, p as int));
            assert(g[jg].1.len() > 0);
        }
        assert forall|x: TokenView| #[trigger] has_token(after[j].1, x) implies la_has(g, p, d, x) by {
            assert(la_has(after, p, d, x));
            if !la_has(before, p, d, x) {
                assert(passes_on(f, prods, key, la, x));
                if la.len() > 0 && string_first_has(f, item_tail(prods, key), x) {
                    assert(has_token(la, la[0])) by {
                        assert(crate::terminal::same_token(la[0], la[0]));
                    }
                    let jg = choose|jg: int| 0 <= jg < g.len() && (#[trigger] g[jg]).0.production == key.production
                        && g[jg].0.dot == key.dot && has_token(g[jg].1, la[0]);
                    assert(closes_into(prods, g[jg].0, p as int));
                    assert(item_tail(prods, g[jg].0) == item_tail(prods, key));
                    assert(passes_on(f, prods, g[jg].0, g[jg].1, x));
                } else {
                    let jg = choose|jg: int| 0 <= jg < g.len() && (#[trigger] g[jg]).0.production == key.production
                        && g[jg].0.dot == key.dot && has_token(g[jg].1, x);
                    assert(closes_into(prods, g[jg].0, p as int));
                    assert(item_tail(prods, g[jg].0) == item_tail(prods, key));
                    assert(passes_on(f, prods, g[jg].0, g[jg].1, x));
                }
            }
        }
    }
}

/// A copy of a set of items.
fn copy_items(items: &Vec<(GrammarItemKey, TokenSet)>) -> (r: Vec<(GrammarItemKey, TokenSet)>)
    ensures
        items_view(r@) == items_view(items@),
        r@.len() == items@.len(),
        forall|j: int| 0 <= j < r@.len() ==> (#[trigger] r@[j]).0 == items@[j].0 && r@[j].1@ == items@[j].1@,
{
    let mut r: Vec<(GrammarItemKey, TokenSet)> = Vec::new();
    let mut i: usize = 0;
    while i < items.len()
        invariant
            i <= items@.len(),
            r@.len() == i,
            forall|j: int| 0 <= j < i ==> (#[trigger] r@[j]).0 == items@[j].0 && r@[j].1@ == items@[j].1@,
        decreases items@.len() - i,
    {
        r.push((items[i].0, items[i].1.snapshot()));
        i = i + 1;
    }
    proof {
        assert(items_view(r@) =~= items_view(items@));
    }
    r
}

/// Two grammar symbols are the same symbol.
pub open spec fn same_symbol(a: GrammarSymbolView, b: GrammarSymbolView) -> bool {
    match (a, b) {
        (GrammarSymbolView::Terminal(x), GrammarSymbolView::Terminal(y)) => same_token(x, y),
        (GrammarSymbolView::NonTerminal(x), GrammarSymbolView::NonTerminal(y)) => x == y,
        _ => false,
    }
}

/// The symbol after the dot of item `k` is `x`.
pub open spec fn next_is(prods: Seq<ProductionView>, k: GrammarItemKey, x: GrammarSymbolView) -> bool {
    &&& k.production < prods.len()
    &&& k.dot < prods[k.production as int].right_hand_side.len()
    &&& same_symbol(prods[k.production as int].right_hand_side[k.dot as int], x)
}

/// The items of `v` whose dot stands before `x`, with the dot moved past
/// it, and their look ahead sets.
pub open spec fn goto_kernel(
    prods: Seq<ProductionView>,
    v: Seq<(GrammarItemKey, Seq<TokenView>)>,
    x: GrammarSymbolView,
) -> Seq<(GrammarItemKey, Seq<TokenView>)>
    decreases v.len(),
{
    if v.len() == 0 {
        Seq::empty()
    } else {
        let rest = goto_kernel(prods, v.drop_last(), x);
        if next_is(prods, v.last().0, x) {
            rest.push((GrammarItemKey { dot: (v.last().0.dot + 1) as usize, ..v.last().0 }, v.last().1))
        } else {
            rest
        }
    }
}

/// The kernel items of `v` (those whose dot has moved, and start items),
/// as production and dot.
pub open spec fn kernel_pairs(v: Seq<(GrammarItemKey, Seq<TokenView>)>) -> Seq<(u32, usize)>
    decreases v.len(),
{
    if v.len() == 0 {
        Seq::empty()
    } else {
        let rest = kernel_pairs(v.drop_last());
        if v.last().0.dot > 0 || v.last().0.is_start {
            rest.push((v.last().0.production, v.last().0.dot))
        } else {
            rest
        }
    }
}

/// Each kernel item of `v` is among its kernel pairs, and each kernel pair
/// is an item of `v`.
pub proof fn lemma_kernel_pairs(v: Seq<(GrammarItemKey, Seq<TokenView>)>)
    ensures
        forall|j: int| 0 <= j < v.len() && ((#[trigger] v[j]).0.dot > 0 || v[j].0.is_start)
            ==> kernel_pairs(v).contains((v[j].0.production, v[j].0.dot)),
        forall|pd: (u32, usize)| #[trigger] kernel_pairs(v).contains(pd)
            ==> exists|j: int| 0 <= j < v.len() && (#[trigger] v[j]).0.production == pd.0 && v[j].0.dot == pd.1,
    decreases v.len(),
{
    if v.len() > 0 {
        let w = v.drop_last();
        lemma_kernel_pairs(w);
        let rest = kernel_pairs(w);
        assert forall|j: int| 0 <= j < v.len() && ((#[trigger] v[j]).0.dot > 0 || v[j].0.is_start)
            implies kernel_pairs(v).contains((v[j].0.production, v[j].0.dot)) by {
            if j < v.len() - 1 {
                assert(w[j] == v[j]);
                let i = choose|i: int| 0 <= i < rest.len() && rest[i] == (w[j].0.production, w[j].0.dot);
                if v.last().0.dot > 0 || v.last().0.is_start {
                    assert(kernel_pairs(v)[i] == rest[i]);
                }
            } else {
                assert(kernel_pairs(v).last() == (v[j].0.production, v[j].0.dot));
            }
        }
        assert forall|pd: (u32, usize)| #[trigger] kernel_pairs(v).contains(pd)
            implies exists|j: int| 0 <= j < v.len() && (#[trigger] v[j]).0.production == pd.0 && v[j].0.dot == pd.1 by {
            let i = choose|i: int| 0 <= i < kernel_pairs(v).len() && kernel_pairs(v)[i] == pd;
            if i < rest.len() {
                assert(rest[i] == pd);
                assert(rest.contains(pd));
                let j = choose|j: int| 0 <= j < w.len() && (#[trigger] w[j]).0.production == pd.0 && w[j].0.dot == pd.1;
                assert(v[j] == w[j]);
            } else {
                assert(v[v.len() - 1].0.production == pd.0);
            }
        }
    }
}

/// The kernel pairs of a set of items, in order.
fn kernel_pairs_of(items: &Vec<(GrammarItemKey, TokenSet)>) -> (r: Vec<(u32, usize)>)
    ensures
        r@ == kernel_pairs(items_view(items@)),
{
    let ghost v = items_view(items@);
    let mut r: Vec<(u32, usize)> = Vec::new();
    let mut i: usize = 0;
    while i < items.len()
        invariant
            i <= items@.len(),
            v == items_view(items@),
            r@ == kernel_pairs(v.take(i as int)),
        decreases items@.len() - i,
    {
        proof {
            assert(v.take(i + 1).drop_last() =~= v.take(i as int));
            assert(v.take(i + 1).last() == v[i as int]);
            assert(v[i as int].0 == items@[i as int].0);
        }
        let k = items[i].0;
        if k.is_kernel_item() {
            r.push((k.production, k.dot));
        }
        i = i + 1;
    }
    proof {
        assert(v.take(i as int) =~= v);
    }
    r
}

/// Two lists of pairs are equal.
fn pairs_equal(a: &Vec<(u32, usize)>, b: &Vec<(u32, usize)>) -> (r: bool)
    ensures
        r == (a@ == b@),
{
    if a.len() != b.len() {
        return false;
    }
    let mut i: usize = 0;
    while i < a.len()
        invariant
            i <= a@.len(),
            a@.len() == b@.len(),
            forall|j: int| 0 <= j < i ==> a@[j] == b@[j],
        decreases a@.len() - i,
    {
        if a[i].0 != b[i].0 || a[i].1 != b[i].1 {
            return false;
        }
        i = i + 1;
    }
    proof {
        assert(a@ =~= b@);
    }
    true
}

/// The abstract values of parser states.
pub open spec fn states_view(v: Seq<ParserState>) -> Seq<ParserStateView> {
    v.map_values(|st: ParserState| st@)
}

/// How many tokens of `u` the look ahead sets of all the states lack.
pub open spec fn states_la(sv: Seq<ParserStateView>, u: Seq<TokenView>) -> nat
    decreases sv.len(),
{
    if sv.len() == 0 {
        0
    } else {
        la_measure(sv[0].items, u) + states_la(sv.drop_first(), u)
    }
}

/// 1 for a state that is not processed, 0 for one that is.
pub open spec fn pending(st: ParserStateView) -> nat {
    if st.processed_state == ProcessedState::Processed {
        0
    } else {
        1
    }
}

/// How many states are not processed.
pub open spec fn unprocessed(sv: Seq<ParserStateView>) -> nat
    decreases sv.len(),
{
    if sv.len() == 0 {
        0
    } else {
        pending(sv[0]) + unprocessed(sv.drop_first())
    }
}

/// Replacing one state changes the sums by the change in that state.
pub proof fn lemma_states_update(sv: Seq<ParserStateView>, t: int, x: ParserStateView, u: Seq<TokenView>)
    requires
        0 <= t < sv.len(),
    ensures
        states_la(sv.update(t, x), u) + la_measure(sv[t].items, u) == states_la(sv, u) + la_measure(x.items, u),
        unprocessed(sv.update(t, x)) + pending(sv[t]) == unprocessed(sv) + pending(x),
    decreases sv.len(),
{
    if t == 0 {
        assert(sv.update(t, x).drop_first() =~= sv.drop_first());
    } else {
        assert(sv.update(t, x).drop_first() =~= sv.drop_first().update(t - 1, x));
        lemma_states_update(sv.drop_first(), t - 1, x, u);
    }
}

/// Growing look ahead sets do not raise the measure, and lower it when one
/// gains a token of `u`.
pub proof fn lemma_la_measure_grow(
    g1: Seq<(GrammarItemKey, Seq<TokenView>)>,
    g2: Seq<(GrammarItemKey, Seq<TokenView>)>,
    u: Seq<TokenView>,
    b: int,
    t: TokenView,
)
    requires
        g1.len() == g2.len(),
        forall|j: int, x: TokenView| 0 <= j < g1.len() && #[trigger] has_token(g1[j].1, x) ==> has_token(g2[j].1, x),
    ensures
        la_measure(g2, u) <= la_measure(g1, u),
        0 <= b < g1.len() && has_token(u, t) && has_token(g2[b].1, t) && !has_token(g1[b].1, t)
            ==> la_measure(g2, u) < la_measure(g1, u),
    decreases g1.len(),
{
    if g1.len() > 0 {
        crate::firsts::lemma_missing_mono(g1[0].1, g2[0].1, u, t);
        assert forall|j: int, x: TokenView| 0 <= j < g1.drop_first().len() && #[trigger] has_token(g1.drop_first()[j].1, x)
            implies has_token(g2.drop_first()[j].1, x) by {
            assert(has_token(g1[j + 1].1, x));
        }
        lemma_la_measure_grow(g1.drop_first(), g2.drop_first(), u, b - 1, t);
    }
}

/// Every target of the state's actions is a state below `n`.
pub open spec fn targets_below(st: ParserStateView, n: nat) -> bool {
    &&& forall|k: int| 0 <= k < st.shifts.len() ==> (#[trigger] st.shifts[k]).1 < n
    &&& forall|k: int| 0 <= k < st.gotos.len() ==> (#[trigger] st.gotos[k]).1 < n
    &&& match st.error_recovery_state {
        Some(e) => e < n,
        None => true,
    }
}

/// The kernel pairs read only the items, not their look ahead sets.
pub proof fn lemma_kernel_pairs_keys(a: Seq<(GrammarItemKey, Seq<TokenView>)>, b: Seq<(GrammarItemKey, Seq<TokenView>)>)
    requires
        a.len() == b.len(),
        forall|j: int| 0 <= j < a.len() ==> (#[trigger] a[j]).0 == b[j].0,
    ensures
        kernel_pairs(a) == kernel_pairs(b),
    decreases a.len(),
{
    if a.len() > 0 {
        assert forall|j: int| 0 <= j < a.drop_last().len() implies (#[trigger] a.drop_last()[j]).0 == b.drop_last()[j].0 by {
            assert(a[j].0 == b[j].0);
        }
        lemma_kernel_pairs_keys(a.drop_last(), b.drop_last());
        assert(a.last().0 == b.last().0);
    }
}

/// The goto kernel of items whose look ahead tokens are among `u` has its
/// look ahead tokens among `u`.
pub proof fn lemma_goto_kernel_within(
    prods: Seq<ProductionView>,
    v: Seq<(GrammarItemKey, Seq<TokenView>)>,
    x: GrammarSymbolView,
    u: Seq<TokenView>,
)
    requires
        la_within(v, u),
    ensures
        la_within(goto_kernel(prods, v, x), u),
    decreases v.len(),
{
    if v.len() > 0 {
        let w = v.drop_last();
        assert(la_within(w, u)) by {
            assert forall|j: int, t: TokenView| 0 <= j < w.len() && #[trigger] has_token(w[j].1, t) implies has_token(u, t) by {
                assert(w[j] == v[j]);
            }
        }
        lemma_goto_kernel_within(prods, w, x, u);
        let g = goto_kernel(prods, v, x);
        assert forall|j: int, t: TokenView| 0 <= j < g.len() && #[trigger] has_token(g[j].1, t) implies has_token(u, t) by {
            if j == goto_kernel(prods, w, x).len() {
                assert(has_token(v[v.len() - 1].1, t));
            } else {
                assert(g[j] == goto_kernel(prods, w, x)[j]);
            }
        }
    }
}

/// Every state is well formed, knows its place, holds items of the
/// productions with look ahead tokens among `u`, and acts only towards
/// states of the list.
pub open spec fn states_sound(
    prods: Seq<ProductionView>,
    start: u32,
    error: u32,
    u: Seq<TokenView>,
    nts: nat,
    states: Seq<ParserState>,
) -> bool {
    forall|s: int| 0 <= s < states.len() ==> state_sound(prods, start, error, u, nts, #[trigger] states[s], s, states.len())
}

/// State `st`, the `s`th of `n`, is well formed, knows its place, holds
/// items of the productions with look ahead tokens among `u`, goes only on
/// non terminals below `nts` and acts only towards states below `n`, and
/// has no conflicts recorded yet.
pub open spec fn state_sound(
    prods: Seq<ProductionView>,
    start: u32,
    error: u32,
    u: Seq<TokenView>,
    nts: nat,
    st: ParserState,
    s: int,
    n: nat,
) -> bool {
    &&& st.wf()
    &&& st@.ident == s
    &&& keys_valid(prods, st@.items, start, error)
    &&& la_within(st@.items, u)
    &&& targets_below(st@, n)
    &&& forall|k: int| 0 <= k < st@.gotos.len() ==> (#[trigger] st@.gotos[k]).0 < nts
    &&& st@.shift_reduce_conflicts.len() == 0
    &&& st@.reduce_reduce_conflicts.len() == 0
}

/// Resolving reduce/reduce conflicts records only conflicts between items
/// of the state.
proof fn lemma_rr_keys_after(s0: ParserStateView, mid: ParserStateView, s2: ParserStateView)
    requires
        rr_keys_in(s0.reduce_reduce_conflicts, s0.items),
        mid.reduce_reduce_conflicts == s0.reduce_reduce_conflicts,
        mid.items.len() == s0.items.len(),
        forall|b: int| 0 <= b < s0.items.len() ==> (#[trigger] mid.items[b]).0 == s0.items[b].0,
        crate::state::look_aheads_trimmed(mid, s2),
        s2.reduce_reduce_conflicts.len() >= mid.reduce_reduce_conflicts.len(),
        s2.reduce_reduce_conflicts.take(mid.reduce_reduce_conflicts.len() as int) == mid.reduce_reduce_conflicts,
        crate::state::rr_records_items(s2.reduce_reduce_conflicts, mid.reduce_reduce_conflicts.len() as int, mid.items),
    ensures
        rr_keys_in(s2.reduce_reduce_conflicts, s2.items),
{
    let rr = s2.reduce_reduce_conflicts;
    assert forall|m: int| 0 <= m < rr.len() implies has_key(s2.items, (#[trigger] rr[m]).0) && has_key(s2.items, rr[m].1) by {
        if m < mid.reduce_reduce_conflicts.len() {
            assert(rr[m] == s0.reduce_reduce_conflicts[m]) by {
                assert(rr.take(mid.reduce_reduce_conflicts.len() as int)[m] == rr[m]);
            }
            assert(has_key(s0.items, s0.reduce_reduce_conflicts[m].0));
            let b = choose|b: int| 0 <= b < s0.items.len() && s0.items[b].0 == s0.reduce_reduce_conflicts[m].0;
            assert(s2.items[b].0 == mid.items[b].0);
            let b2 = choose|b: int| 0 <= b < s0.items.len() && s0.items[b].0 == s0.reduce_reduce_conflicts[m].1;
            assert(s2.items[b2].0 == mid.items[b2].0);
        } else {
            let b = choose|b: int| 0 <= b < mid.items.len() && mid.items[b].0 == rr[m].0;
            assert(s2.items[b].0 == mid.items[b].0);
            let b2 = choose|b: int| 0 <= b < mid.items.len() && mid.items[b].0 == rr[m].1;
            assert(s2.items[b2].0 == mid.items[b2].0);
        }
    }
}

/// What a description of state `st`, one of `n`, reads: its items and the
/// items of its conflicts are items of the productions, its gotos go on non
/// terminals below `nts`, and its actions go to states below `n`.
pub open spec fn state_describable(prods: Seq<ProductionView>, nts: nat, st: ParserStateView, n: nat) -> bool {
    &&& forall|j: int| 0 <= j < st.items.len() ==> (#[trigger] st.items[j]).0.production < prods.len()
    &&& forall|k: int| 0 <= k < st.gotos.len() ==> (#[trigger] st.gotos[k]).0 < nts
    &&& forall|m: int| 0 <= m < st.shift_reduce_conflicts.len() ==> (#[trigger] st.shift_reduce_conflicts[m]).2.production
        < prods.len()
    &&& rr_keys_in(st.reduce_reduce_conflicts, st.items)
    &&& targets_below(st, n)
}

/// `items` has an item `k`.
pub open spec fn has_key(items: Seq<(GrammarItemKey, Seq<TokenView>)>, k: GrammarItemKey) -> bool {
    exists|b: int| 0 <= b < items.len() && items[b].0 == k
}

/// Each reduce/reduce conflict of `rr` is between two items of `items`.
pub open spec fn rr_keys_in(
    rr: Seq<(GrammarItemKey, GrammarItemKey, Seq<TokenView>)>,
    items: Seq<(GrammarItemKey, Seq<TokenView>)>,
) -> bool {
    forall|m: int| 0 <= m < rr.len() ==> has_key(items, (#[trigger] rr[m]).0) && has_key(items, rr[m].1)
}

/// State `b` is state `a` with possibly more look ahead tokens: the same
/// items and actions.
pub open spec fn state_grown(a: ParserStateView, b: ParserStateView) -> bool {
    &&& b.ident == a.ident
    &&& b.shifts == a.shifts
    &&& b.gotos == a.gotos
    &&& b.error_recovery_state == a.error_recovery_state
    &&& b.items.len() == a.items.len()
    &&& forall|j: int| 0 <= j < a.items.len() ==> (#[trigger] b.items[j]).0 == a.items[j].0
    &&& forall|j: int, x: TokenView| 0 <= j < a.items.len() && #[trigger] has_token(a.items[j].1, x) ==> has_token(b.items[j].1, x)
}

/// No two states of `sts` have the same kernel.
pub open spec fn kernels_distinct(sts: Seq<ParserState>) -> bool {
    forall|i: int, j: int| 0 <= i < j < sts.len() && kernel_pairs(sts[i]@.items).len() > 0
        ==> kernel_pairs((#[trigger] sts[i])@.items) != kernel_pairs((#[trigger] sts[j])@.items)
}

/// States whose items have the same keys have the same kernels: the states
/// `b` keep the keys of the states `a`, and any states after them have a
/// kernel that none of `a` has.
pub proof fn lemma_kernels_kept(a: Seq<ParserState>, b: Seq<ParserState>)
    requires
        kernels_distinct(a),
        a.len() <= b.len() <= a.len() + 1,
        forall|k: int| 0 <= k < a.len() ==> (#[trigger] b[k])@.items.len() == a[k]@.items.len()
            && forall|j: int| 0 <= j < a[k]@.items.len() ==> (#[trigger] b[k]@.items[j]).0 == a[k]@.items[j].0,
        b.len() == a.len() + 1 ==> kernel_unmatched(a, b[a.len() as int]@.items),
    ensures
        kernels_distinct(b),
{
    assert forall|k: int| 0 <= k < a.len() implies kernel_pairs((#[trigger] b[k])@.items) == kernel_pairs(a[k]@.items) by {
        lemma_kernel_pairs_keys(b[k]@.items, a[k]@.items);
    }
    assert forall|i: int, j: int| 0 <= i < j < b.len() && kernel_pairs(b[i]@.items).len() > 0
        implies kernel_pairs((#[trigger] b[i])@.items) != kernel_pairs((#[trigger] b[j])@.items) by {
        assert(kernel_pairs(b[i]@.items) == kernel_pairs(a[i]@.items));
        if j < a.len() {
            assert(kernel_pairs(b[j]@.items) == kernel_pairs(a[j]@.items));
        }
    }
}

/// No state of `states` has the kernel of the items `c`, or `c` has no kernel.
pub open spec fn kernel_unmatched(states: Seq<ParserState>, c: Seq<(GrammarItemKey, Seq<TokenView>)>) -> bool {
    kernel_pairs(c).len() == 0 || forall|t: int| 0 <= t < states.len() ==> kernel_pairs((#[trigger] states[t])@.items) != kernel_pairs(c)
}

/// State `b` is state `a` with the look ahead sets of the kernel items of
/// `c` merged into those of the same items; a processed state that gains a
/// token is to be processed again.
pub open spec fn merged_from(a: ParserStateView, b: ParserStateView, c: Seq<(GrammarItemKey, Seq<TokenView>)>) -> bool {
    &&& b == (ParserStateView { items: b.items, processed_state: b.processed_state, ..a })
    &&& b.items.len() == a.items.len()
    &&& forall|j: int| 0 <= j < a.items.len() ==> (#[trigger] b.items[j]).0 == a.items[j].0
    &&& forall|j: int, x: TokenView| 0 <= j < a.items.len() ==> (#[trigger] has_token(b.items[j].1, x)
        <==> has_token(a.items[j].1, x) || crate::state::merged_look_ahead_has(a, c, j, x))
    &&& b.processed_state == if a.processed_state == ProcessedState::Processed && crate::state::merge_adds(a, c) {
        ProcessedState::NeedsReprocessing
    } else {
        a.processed_state
    }
}

/// What going on a symbol did to the states `old`, giving `new`, where `c`
/// is the closure of the goto kernel: with `Some(t)`, either `t` is the
/// first state with the kernel of `c` and `c` was merged into it, or no
/// state had that kernel and `t` is a new, unprocessed state holding `c`;
/// with `None`, no state had that kernel and every number was taken.
pub open spec fn goto_outcome(
    old: Seq<ParserState>,
    new: Seq<ParserState>,
    c: Seq<(GrammarItemKey, Seq<TokenView>)>,
    r: Option<u32>,
) -> bool {
    match r {
        Some(t) => if t < old.len() {
            &&& kernel_pairs(c).len() > 0
            &&& kernel_pairs(old[t as int]@.items) == kernel_pairs(c)
            &&& forall|k: int| 0 <= k < t ==> kernel_pairs((#[trigger] old[k])@.items) != kernel_pairs(c)
            &&& new.len() == old.len()
            &&& forall|k: int| 0 <= k < old.len() && k != t ==> #[trigger] new[k] == old[k]
            &&& merged_from(old[t as int]@, new[t as int]@, c)
        } else {
            &&& t == old.len()
            &&& kernel_unmatched(old, c)
            &&& new.len() == old.len() + 1
            &&& forall|k: int| 0 <= k < old.len() ==> #[trigger] new[k] == old[k]
            &&& new[t as int]@.ident == t
            &&& new[t as int]@.items == c
            &&& new[t as int]@.shifts.len() == 0
            &&& new[t as int]@.gotos.len() == 0
            &&& new[t as int]@.error_recovery_state == None::<u32>
            &&& new[t as int]@.processed_state == ProcessedState::Unprocessed
        },
        None => {
            &&& kernel_unmatched(old, c)
            &&& old.len() == u32::MAX
            &&& new == old
        },
    }
}

/// Looks for the first state whose kernel is that of `item_set`.
fn equivalent_state(states: &Vec<ParserState>, item_set: &Vec<(GrammarItemKey, TokenSet)>) -> (r: Option<usize>)
    ensures
        match r {
            Some(t) => t < states@.len() && kernel_pairs(items_view(item_set@)).len() > 0
                && kernel_pairs(states@[t as int]@.items) == kernel_pairs(items_view(item_set@))
                && forall|k: int| 0 <= k < t ==> kernel_pairs((#[trigger] states@[k])@.items) != kernel_pairs(items_view(item_set@)),
            None => kernel_pairs(items_view(item_set@)).len() == 0 || forall|t: int| 0 <= t < states@.len()
                ==> kernel_pairs((#[trigger] states@[t])@.items) != kernel_pairs(items_view(item_set@)),
        },
{
    let target_keys = kernel_pairs_of(item_set);
    if target_keys.len() > 0 {
        let mut t: usize = 0;
        while t < states.len()
            invariant
                t <= states@.len(),
                target_keys@ == kernel_pairs(items_view(item_set@)),
                target_keys@.len() > 0,
                forall|k: int| 0 <= k < t ==> kernel_pairs((#[trigger] states@[k])@.items) != kernel_pairs(items_view(item_set@)),
            decreases states@.len() - t,
        {
            let its = states[t].grammar_items();
            let keys = kernel_pairs_of(its);
            proof {
                assert(items_view(its@) == states@[t as int]@.items);
            }
            if pairs_equal(&keys, &target_keys) {
                return Some(t);
            }
            t = t + 1;
        }
    }
    None
}

/// Whether `symbol` is among `list`.
fn symbol_listed(list: &Vec<GrammarSymbol>, symbol: &GrammarSymbol) -> (r: bool)
    ensures
        r == exists|k: int| 0 <= k < list@.len() && same_symbol((#[trigger] list@[k])@, symbol@),
{
    let mut k: usize = 0;
    while k < list.len()
        invariant
            k <= list@.len(),
            forall|j: int| 0 <= j < k ==> !same_symbol((#[trigger] list@[j])@, symbol@),
        decreases list@.len() - k,
    {
        let same = match (&list[k], symbol) {
            (GrammarSymbol::Terminal(a), GrammarSymbol::Terminal(b)) => a.order(b) == crate::order::Order::Equal,
            (GrammarSymbol::NonTerminal(a), GrammarSymbol::NonTerminal(b)) => *a == *b,
            _ => false,
        };
        if same {
            return true;
        }
        k = k + 1;
    }
    false
}

/// Non terminal `n` stands in some right hand side.
pub open spec fn used_in_rhs(prods: Seq<ProductionView>, n: u32) -> bool {
    exists|p: int, i: int|
        0 <= p < prods.len() && 0 <= i < prods[p].right_hand_side.len() && #[trigger] prods[p].right_hand_side[i]
            == GrammarSymbolView::NonTerminal(n)
}

/// Non terminal `n` has a production.
pub open spec fn has_production(prods: Seq<ProductionView>, n: u32) -> bool {
    exists|p: int| 0 <= p < prods.len() && (#[trigger] prods[p]).left_hand_side == n
}

/// Non terminal `n`, neither the start nor the error non terminal, is
/// used but has no production.
pub open spec fn undefined(prods: Seq<ProductionView>, start: u32, error: u32, n: u32) -> bool {
    n != start && n != error && used_in_rhs(prods, n) && !has_production(prods, n)
}

/// How many of the non terminals below `k` are undefined.
pub open spec fn undefined_count(prods: Seq<ProductionView>, start: u32, error: u32, k: nat) -> nat
    decreases k,
{
    if k == 0 {
        0
    } else {
        undefined_count(prods, start, error, (k - 1) as nat) + (if undefined(prods, start, error, (k - 1) as u32) {
            1nat
        } else {
            0nat
        })
    }
}

/// No more non terminals are undefined than there are.
pub proof fn lemma_undefined_count_bound(prods: Seq<ProductionView>, start: u32, error: u32, k: nat)
    ensures
        undefined_count(prods, start, error, k) <= k,
    decreases k,
{
    if k > 0 {
        lemma_undefined_count_bound(prods, start, error, (k - 1) as nat);
    }
}

/// A grammar specification: its productions, the first tokens of its non
/// terminals, and which non terminals start the grammar and stand for errors.
pub struct Specification {
    productions: Vec<Production>,
    non_terminal_names: Vec<String>,
    /// The type of the attributes of the generated parser.
    attribute_type: String,
    /// The type that the generated parser is implemented for.
    target_type: String,
    /// How many errors were found in the specification.
    error_count: u32,
    /// How many warnings were given about the specification.
    warning_count: u32,
    non_terminal_count: u32,
    start_non_terminal: u32,
    error_non_terminal: u32,
    firsts: Vec<FirstsData>,
}

impl Specification {
    pub closed spec fn prods(&self) -> Seq<ProductionView> {
        productions_view(self.productions@)
    }

    pub closed spec fn firsts_table(&self) -> Seq<(Seq<TokenView>, bool)> {
        firsts_view(self.firsts@)
    }

    pub closed spec fn start(&self) -> u32 {
        self.start_non_terminal
    }

    pub closed spec fn error_nt(&self) -> u32 {
        self.error_non_terminal
    }

    pub closed spec fn non_terminals(&self) -> nat {
        self.non_terminal_count as nat
    }

    pub closed spec fn attribute_type_text(&self) -> Seq<char> {
        self.attribute_type@
    }

    pub closed spec fn target_type_text(&self) -> Seq<char> {
        self.target_type@
    }

    pub closed spec fn errors(&self) -> u32 {
        self.error_count
    }

    pub closed spec fn warnings(&self) -> u32 {
        self.warning_count
    }

    /// Counts an error found in the specification (stopping at the largest `u32`).
    pub fn error(&mut self)
        ensures
            final(self).errors() == if old(self).errors() == u32::MAX { u32::MAX } else { (old(self).errors() + 1) as u32 },
            final(self).warnings() == old(self).warnings(),
            final(self).prods() == old(self).prods(),
            final(self).names() == old(self).names(),
            final(self).non_terminals() == old(self).non_terminals(),
            final(self).start() == old(self).start(),
            final(self).error_nt() == old(self).error_nt(),
            old(self).prods_wf() ==> final(self).prods_wf(),
            old(self).wf() ==> final(self).wf(),
    {
        self.error_count = self.error_count.saturating_add(1);
    }

    /// Counts a warning given about the specification (stopping at the largest `u32`).
    pub fn warning(&mut self)
        ensures
            final(self).warnings() == if old(self).warnings() == u32::MAX { u32::MAX } else { (old(self).warnings() + 1) as u32 },
            final(self).errors() == old(self).errors(),
            final(self).prods() == old(self).prods(),
            final(self).names() == old(self).names(),
            final(self).non_terminals() == old(self).non_terminals(),
            final(self).start() == old(self).start(),
            final(self).error_nt() == old(self).error_nt(),
            old(self).prods_wf() ==> final(self).prods_wf(),
            old(self).wf() ==> final(self).wf(),
    {
        self.warning_count = self.warning_count.saturating_add(1);
    }

    /// How many errors were found in the specification.
    pub fn error_count(&self) -> (r: u32)
        ensures
            r == self.errors(),
    {
        self.error_count
    }

    /// How many warnings were given about the specification.
    pub fn warning_count(&self) -> (r: u32)
        ensures
            r == self.warnings(),
    {
        self.warning_count
    }

    /// The type of the attributes of the generated parser.
    pub fn attribute_type(&self) -> (r: &str)
        ensures
            r@ == self.attribute_type_text(),
    {
        self.attribute_type.as_str()
    }

    /// The type that the generated parser is implemented for.
    pub fn target_type(&self) -> (r: &str)
        ensures
            r@ == self.target_type_text(),
    {
        self.target_type.as_str()
    }

    /// Sets the type of the attributes of the generated parser.
    pub fn set_attribute_type(&mut self, attribute_type: String)
        ensures
            final(self).attribute_type_text() == attribute_type@,
            final(self).target_type_text() == old(self).target_type_text(),
            final(self).prods() == old(self).prods(),
            final(self).names() == old(self).names(),
            final(self).firsts_table() == old(self).firsts_table(),
            final(self).non_terminals() == old(self).non_terminals(),
            final(self).start() == old(self).start(),
            final(self).error_nt() == old(self).error_nt(),
            old(self).prods_wf() ==> final(self).prods_wf(),
            old(self).wf() ==> final(self).wf(),
    {
        self.attribute_type = attribute_type;
    }

    /// Sets the type that the generated parser is implemented for.
    pub fn set_target_type(&mut self, target_type: String)
        ensures
            final(self).target_type_text() == target_type@,
            final(self).attribute_type_text() == old(self).attribute_type_text(),
            final(self).prods() == old(self).prods(),
            final(self).names() == old(self).names(),
            final(self).firsts_table() == old(self).firsts_table(),
            final(self).non_terminals() == old(self).non_terminals(),
            final(self).start() == old(self).start(),
            final(self).error_nt() == old(self).error_nt(),
            old(self).prods_wf() ==> final(self).prods_wf(),
            old(self).wf() ==> final(self).wf(),
    {
        self.target_type = target_type;
    }

    /// Sets how many errors and warnings were found in the specification.
    pub fn set_error_and_warning_counts(&mut self, errors: u32, warnings: u32)
        ensures
            final(self).errors() == errors,
            final(self).warnings() == warnings,
            final(self).attribute_type_text() == old(self).attribute_type_text(),
            final(self).target_type_text() == old(self).target_type_text(),
            final(self).prods() == old(self).prods(),
            final(self).names() == old(self).names(),
            final(self).firsts_table() == old(self).firsts_table(),
            final(self).non_terminals() == old(self).non_terminals(),
            final(self).start() == old(self).start(),
            final(self).error_nt() == old(self).error_nt(),
            old(self).prods_wf() ==> final(self).prods_wf(),
            old(self).wf() ==> final(self).wf(),
    {
        self.error_count = errors;
        self.warning_count = warnings;
    }

    /// The names of the non terminals, by number.
    pub closed spec fn names(&self) -> Seq<Seq<char>> {
        self.non_terminal_names@.map_values(|n: String| n@)
    }

    /// The productions are numbered in order and name only non terminals
    /// below the count, as do the start and error non terminals.
    pub closed spec fn prods_wf(&self) -> bool {
        &&& productions_below(self.prods(), self.non_terminal_count as nat)
        &&& productions_numbered(self.prods())
        &&& self.productions@.len() < u32::MAX
        &&& self.start_non_terminal < self.non_terminal_count
        &&& self.error_non_terminal < self.non_terminal_count
        &&& self.non_terminal_names@.len() == self.non_terminal_count
        &&& forall|p: int| 0 <= p < self.prods().len() ==> (#[trigger] self.prods()[p]).right_hand_side.len() < usize::MAX
    }

    /// The productions are well formed and the firsts table is theirs.
    pub closed spec fn wf(&self) -> bool {
        &&& self.prods_wf()
        &&& self.firsts@.len() == self.non_terminal_count
        &&& forall|n: int| 0 <= n < self.firsts@.len() ==> (#[trigger] self.firsts@[n]).token_set.wf()
        &&& least_firsts(self.firsts_table(), self.prods())
        &&& firsts_within(self.firsts_table(), grammar_terminals(self.prods()))
    }

    /// A specification without productions, of the non terminals named by
    /// `non_terminal_names` (numbered in their order), among which `start`
    /// starts the grammar and `error` stands for errors.
    pub fn new(non_terminal_names: Vec<String>, start: u32, error: u32) -> (r: Self)
        requires
            non_terminal_names@.len() < u32::MAX,
            start < non_terminal_names@.len(),
            error < non_terminal_names@.len(),
        ensures
            r.wf(),
            r.prods() == Seq::<ProductionView>::empty(),
            r.non_terminals() == non_terminal_names@.len(),
            r.names() == non_terminal_names@.map_values(|n: String| n@),
            r.start() == start,
            r.error_nt() == error,
            r.attribute_type_text() == "AttributeData"@,
            r.target_type_text() == "GrammarSpecification"@,
            r.errors() == 0,
            r.warnings() == 0,
    {
        proof {
            reveal_strlit("AttributeData");
            reveal_strlit("GrammarSpecification");
        }
        let productions: Vec<Production> = Vec::new();
        proof {
            assert(productions_view(productions@) =~= Seq::<ProductionView>::empty());
        }
        let non_terminal_count = non_terminal_names.len() as u32;
        let firsts = crate::firsts::compute_firsts(&productions, non_terminal_count);
        Specification {
            productions,
            non_terminal_names,
            attribute_type: String::from_str("AttributeData"),
            target_type: String::from_str("GrammarSpecification"),
            error_count: 0,
            warning_count: 0,
            non_terminal_count,
            start_non_terminal: start,
            error_non_terminal: error,
            firsts,
        }
    }

    /// What well formed productions give.
    /// A well formed specification has well formed productions.
    pub proof fn lemma_wf_has_prods_wf(&self)
        requires
            self.wf(),
        ensures
            self.prods_wf(),
    {
    }

    pub proof fn lemma_prods_wf(&self)
        requires
            self.prods_wf(),
        ensures
            productions_below(self.prods(), self.non_terminals()),
            productions_numbered(self.prods()),
            self.names().len() == self.non_terminals(),
            self.start() < self.non_terminals(),
            self.error_nt() < self.non_terminals(),
            self.prods().len() < u32::MAX,
            forall|p: int| 0 <= p < self.prods().len() ==> (#[trigger] self.prods()[p]).right_hand_side.len() < usize::MAX,
    {
    }

    /// Whether non terminal `n` stands in some right hand side, and whether
    /// it has a production.
    fn used_and_defined(&self, n: u32) -> (r: (bool, bool))
        ensures
            r.0 == used_in_rhs(self.prods(), n),
            r.1 == has_production(self.prods(), n),
    {
        let ghost prods = self.prods();
        let mut used = false;
        let mut defined = false;
        let mut p: usize = 0;
        while p < self.productions.len()
            invariant
                prods == self.prods(),
                p <= prods.len(),
                used == exists|q: int, i: int| 0 <= q < p && 0 <= i < prods[q].right_hand_side.len()
                    && #[trigger] prods[q].right_hand_side[i] == GrammarSymbolView::NonTerminal(n),
                defined == exists|q: int| 0 <= q < p && (#[trigger] prods[q]).left_hand_side == n,
            decreases prods.len() - p,
        {
            let production = &self.productions[p];
            proof {
                assert(prods[p as int] == production@);
            }
            if production.left_hand_side == n {
                defined = true;
            }
            let mut i: usize = 0;
            let ghost used_before = used;
            while i < production.right_hand_side.len()
                invariant
                    prods == self.prods(),
                    p < prods.len(),
                    prods[p as int] == production@,
                    i <= production@.right_hand_side.len(),
                    used == (used_before || exists|j: int| 0 <= j < i && #[trigger] prods[p as int].right_hand_side[j]
                        == GrammarSymbolView::NonTerminal(n)),
                decreases production@.right_hand_side.len() - i,
            {
                proof {
                    assert(prods[p as int].right_hand_side[i as int] == production.right_hand_side@[i as int]@);
                }
                match &production.right_hand_side[i] {
                    GrammarSymbol::NonTerminal(x) => {
                        if *x == n {
                            used = true;
                        }
                    },
                    GrammarSymbol::Terminal(_) => {},
                }
                i = i + 1;
            }
            proof {
                if used && !used_before {
                    let j = choose|j: int| 0 <= j < i && #[trigger] prods[p as int].right_hand_side[j] == GrammarSymbolView::NonTerminal(n);
                    assert(prods[p as int].right_hand_side[j] == GrammarSymbolView::NonTerminal(n));
                }
                if (exists|q: int, j: int| 0 <= q < p + 1 && 0 <= j < prods[q].right_hand_side.len()
                    && #[trigger] prods[q].right_hand_side[j] == GrammarSymbolView::NonTerminal(n)) {
                    let (q, j) = choose|q: int, j: int| 0 <= q < p + 1 && 0 <= j < prods[q].right_hand_side.len()
                        && #[trigger] prods[q].right_hand_side[j] == GrammarSymbolView::NonTerminal(n);
                    if q == p {
                        assert(prods[p as int].right_hand_side[j] == GrammarSymbolView::NonTerminal(n));
                    }
                }
            }
            p = p + 1;
        }
        (used, defined)
    }

    /// How many non terminals, other than the start and error non
    /// terminals, are used in some right hand side but have no production.
    pub fn undefined_symbols(&self) -> (r: u32)
        requires
            self.prods_wf(),
        ensures
            r == undefined_count(self.prods(), self.start(), self.error_nt(), self.non_terminals()),
    {
        let mut count: u32 = 0;
        let mut n: u32 = 0;
        while n < self.non_terminal_count
            invariant
                n <= self.non_terminal_count,
                count == undefined_count(self.prods(), self.start(), self.error_nt(), n as nat),
            decreases self.non_terminal_count - n,
        {
            proof {
                lemma_undefined_count_bound(self.prods(), self.start(), self.error_nt(), n as nat);
            }
            let (used, defined) = self.used_and_defined(n);
            if n != self.start_non_terminal && n != self.error_non_terminal && used && !defined {
                count = count + 1;
            }
            n = n + 1;
        }
        count
    }

    /// Production `p`.
    pub fn production(&self, p: usize) -> (r: &Production)
        requires
            p < self.prods().len(),
        ensures
            r@ == self.prods()[p as int],
    {
        &self.productions[p]
    }

    /// How many productions there are.
    pub fn productions_len(&self) -> (r: usize)
        ensures
            r == self.prods().len(),
    {
        self.productions.len()
    }

    /// The name of non terminal `n`.
    /// How many non terminals there are.
    pub fn non_terminal_count(&self) -> (r: u32)
        ensures
            r == self.non_terminals(),
    {
        self.non_terminal_count
    }

    pub fn non_terminal_name(&self, n: u32) -> (r: &str)
        requires
            self.prods_wf(),
            n < self.non_terminals(),
        ensures
            r@ == self.names()[n as int],
    {
        self.non_terminal_names[n as usize].as_str()
    }

    /// Adds the production of `left_hand_side` with `right_hand_side`; the
    /// first production added is preceded by the start production, which
    /// derives its left hand side from the start non terminal. The firsts
    /// table must then be set again.
    pub fn new_production(
        &mut self,
        left_hand_side: u32,
        right_hand_side: Vec<GrammarSymbol>,
        associative_precedence: Option<(crate::symbol::Associativity, u16)>,
        predicate: Option<String>,
    )
        requires
            old(self).prods_wf(),
            left_hand_side < old(self).non_terminals(),
            symbols_below(symbols_view(right_hand_side@), old(self).non_terminals()),
            right_hand_side@.len() < usize::MAX,
            old(self).prods().len() + 2 < u32::MAX,
        ensures
            final(self).prods_wf(),
            final(self).non_terminals() == old(self).non_terminals(),
            final(self).names() == old(self).names(),
            final(self).start() == old(self).start(),
            final(self).error_nt() == old(self).error_nt(),
            old(self).prods().len() == 0 ==> final(self).prods().len() == 2 && final(self).prods()[0] == (ProductionView {
                ident: 0,
                left_hand_side: old(self).start(),
                right_hand_side: seq![GrammarSymbolView::NonTerminal(left_hand_side)],
                associativity: crate::symbol::Associativity::NonAssoc,
                precedence: 0,
                predicate: None,
            }),
            old(self).prods().len() > 0 ==> final(self).prods().len() == old(self).prods().len() + 1
                && final(self).prods().drop_last() == old(self).prods(),
            final(self).prods().last().ident == final(self).prods().len() - 1,
            final(self).prods().last().left_hand_side == left_hand_side,
            final(self).prods().last().right_hand_side == symbols_view(right_hand_side@),
            final(self).prods().last().predicate == match predicate {
                Some(t) => Some(t@),
                None => None::<Seq<char>>,
            },
            (final(self).prods().last().associativity, final(self).prods().last().precedence) == match associative_precedence {
                Some(ap) => ap,
                None => match crate::production::rhs_precedence(symbols_view(right_hand_side@)) {
                    Some(ap) => ap,
                    None => (crate::symbol::Associativity::NonAssoc, 0u16),
                },
            },
    {
        let ghost before = self.prods();
        if self.productions.len() == 0 {
            let start_rhs = vec![GrammarSymbol::NonTerminal(left_hand_side)];
            let start_production = Production::new(0, self.start_non_terminal, start_rhs, None, None);
            proof {
                let sv = symbols_view(start_rhs@);
                assert(sv =~= seq![GrammarSymbolView::NonTerminal(left_hand_side)]);
                assert(sv.drop_first() =~= Seq::<GrammarSymbolView>::empty());
                assert(crate::production::rhs_precedence(sv.drop_first()) == None::<(crate::symbol::Associativity, u16)>);
            }
            self.productions.push(start_production);
        }
        let ident = self.productions.len() as u32;
        let production = Production::new(ident, left_hand_side, right_hand_side, associative_precedence, predicate);
        let ghost middle = self.prods();
        self.productions.push(production);
        proof {
            let after = self.prods();
            assert(after =~= middle.push(self.productions@.last()@));
            assert(after.drop_last() =~= middle);
            if before.len() == 0 {
                assert(middle.len() == 1);
            } else {
                assert(middle =~= before);
            }
            assert(productions_numbered(after)) by {
                assert forall|p: int| 0 <= p < after.len() implies (#[trigger] after[p]).ident == p by {
                    if p < middle.len() {
                        assert(after[p] == middle[p]);
                    }
                }
            }
            assert(productions_below(after, self.non_terminal_count as nat)) by {
                assert forall|p: int| 0 <= p < after.len() implies (#[trigger] after[p]).left_hand_side < self.non_terminal_count
                    && symbols_below(after[p].right_hand_side, self.non_terminal_count as nat) by {
                    if p < middle.len() {
                        assert(after[p] == middle[p]);
                        if before.len() == 0 {
                            assert forall|i: int| 0 <= i < after[p].right_hand_side.len() implies match #[trigger] after[p].right_hand_side[i] {
                                GrammarSymbolView::NonTerminal(x) => x < self.non_terminal_count,
                                GrammarSymbolView::Terminal(_) => true,
                            } by {
                                assert(after[p].right_hand_side =~= seq![GrammarSymbolView::NonTerminal(left_hand_side)]);
                            }
                        } else {
                            assert(before[p] == middle[p]);
                        }
                    }
                }
            }
        }
    }

    /// Sets the firsts table to that of the productions.
    pub fn set_firsts_data(&mut self)
        requires
            old(self).prods_wf(),
        ensures
            final(self).wf(),
            final(self).prods() == old(self).prods(),
            final(self).non_terminals() == old(self).non_terminals(),
            final(self).names() == old(self).names(),
            final(self).start() == old(self).start(),
            final(self).error_nt() == old(self).error_nt(),
    {
        self.firsts = crate::firsts::compute_firsts(&self.productions, self.non_terminal_count);
    }

    /// The kernel of the state that the items `items` go to on `symbol`:
    /// the items whose dot stands before it, with the dot moved past it.
    #[verifier::rlimit(30)]
    fn generate_goto_kernel(&self, items: &Vec<(GrammarItemKey, TokenSet)>, symbol: &GrammarSymbol) -> (r: Vec<(GrammarItemKey, TokenSet)>)
        requires
            self.prods_wf(),
            items_sound(items@),
            keys_valid(self.prods(), items_view(items@), self.start(), self.error_nt()),
        ensures
            items_sound(r@),
            keys_valid(self.prods(), items_view(r@), self.start(), self.error_nt()),
            items_view(r@) == goto_kernel(self.prods(), items_view(items@), symbol@),
    {
        let ghost prods = self.prods();
        let ghost v = items_view(items@);
        let mut r: Vec<(GrammarItemKey, TokenSet)> = Vec::new();
        let mut i: usize = 0;
        while i < items.len()
            invariant
                self.prods_wf(),
                prods == self.prods(),
                i <= items@.len(),
                v == items_view(items@),
                items_ordered(v),
                forall|j: int| 0 <= j < items@.len() ==> (#[trigger] items@[j]).1.wf(),
                keys_valid(prods, v, self.start(), self.error_nt()),
                items_view(r@) == goto_kernel(prods, v.take(i as int), symbol@),
                forall|j: int| 0 <= j < r@.len() ==> (#[trigger] r@[j]).1.wf(),
                items_ordered(items_view(r@)),
                keys_valid(prods, items_view(r@), self.start(), self.error_nt()),
                forall|m: int, j: int| 0 <= m < r@.len() && i <= j < items@.len() ==> (#[trigger] r@[m]).0.dot >= 1 && (
                    r@[m].0.production < (#[trigger] v[j]).0.production || (r@[m].0.production == v[j].0.production
                    && r@[m].0.dot - 1 < v[j].0.dot)),
            decreases items@.len() - i,
        {
            proof {
                assert(v.take(i + 1).drop_last() =~= v.take(i as int));
                assert(v.take(i + 1).last() == v[i as int]);
                assert(v[i as int] == (items@[i as int].0, items@[i as int].1@));
            }
            let key = items[i].0;
            let p = key.production as usize;
            proof {
                assert(prods[p as int] == self.productions@[p as int]@);
            }
            let rhs = &self.productions[p].right_hand_side;
            if key.dot < rhs.len() {
                let matches = match (&rhs[key.dot], symbol) {
                    (GrammarSymbol::Terminal(a), GrammarSymbol::Terminal(b)) => a.order(b) == crate::order::Order::Equal,
                    (GrammarSymbol::NonTerminal(a), GrammarSymbol::NonTerminal(b)) => *a == *b,
                    _ => false,
                };
                proof {
                    assert(prods[p as int].right_hand_side[key.dot as int] == rhs@[key.dot as int]@);
                    assert(matches == next_is(prods, key, symbol@));
                }
                if matches {
                    let ghost before = r@;
                    let shifted = key.shifted();
                    r.push((shifted, items[i].1.snapshot()));
                    proof {
                        let rv = items_view(r@);
                        assert(rv =~= items_view(before).push((shifted, v[i as int].1)));
                        assert(items_ordered(rv)) by {
                            assert forall|a: int, b: int| 0 <= a < b < rv.len() implies (#[trigger] rv[a]).0.precedes((#[trigger] rv[b]).0) by {
                                if b < before.len() {
                                    assert(items_view(before)[a] == rv[a] && items_view(before)[b] == rv[b]);
                                } else {
                                    assert(rv[a].0 == r@[a].0);
                                }
                            }
                        }
                        assert(keys_valid(prods, rv, self.start(), self.error_nt())) by {
                            assert forall|j: int| 0 <= j < rv.len() implies ({
                                let k = (#[trigger] rv[j]).0;
                                &&& k.production < prods.len()
                                &&& k.dot <= prods[k.production as int].right_hand_side.len()
                                &&& k == item_key(prods[k.production as int], k.dot, self.start(), self.error_nt())
                            }) by {
                                if j < before.len() {
                                    assert(items_view(before)[j] == rv[j]);
                                } else {
                                    assert(v[i as int].0 == key);
                                }
                            }
                        }
                        assert forall|m: int, j: int| 0 <= m < r@.len() && i + 1 <= j < items@.len() implies (#[trigger] r@[m]).0.dot >= 1 && (
                            r@[m].0.production < (#[trigger] v[j]).0.production || (r@[m].0.production == v[j].0.production
                            && r@[m].0.dot - 1 < v[j].0.dot)) by {
                            if m == before.len() {
                                assert(v[i as int].0.precedes(v[j].0));
                            } else {
                                assert(r@[m] == before[m]);
                            }
                        }
                        assert forall|j: int| 0 <= j < r@.len() implies (#[trigger] r@[j]).1.wf() by {
                            if j < before.len() {
                                assert(r@[j] == before[j]);
                            } else {
                                assert(items@[i as int].1.wf());
                            }
                        }
                    }
                }
            }
            i = i + 1;
        }
        proof {
            assert(v.take(i as int) =~= v);
        }
        r
    }

    /// Adds the item `key` of production `key.production` with the dot at
    /// its start, with the look ahead tokens of `look_ahead`.
    #[verifier::rlimit(40)]
    fn merge_valid(&self, items: &mut Vec<(GrammarItemKey, TokenSet)>, key: GrammarItemKey, look_ahead: &TokenSet) -> (r: (bool, bool))
        requires
            self.wf(),
            items_sound(old(items)@),
            keys_valid(self.prods(), items_view(old(items)@), self.start(), self.error_nt()),
            la_within(items_view(old(items)@), la_universe(self.prods())),
            key.production < self.prods().len(),
            key == item_key(self.prods()[key.production as int], 0, self.start(), self.error_nt()),
            look_ahead.wf(),
            forall|x: TokenView| #[trigger] has_token(look_ahead@, x) ==> has_token(la_universe(self.prods()), x),
        ensures
            items_sound(final(items)@),
            keys_valid(self.prods(), items_view(final(items)@), self.start(), self.error_nt()),
            la_within(items_view(final(items)@), la_universe(self.prods())),
            grows(items_view(old(items)@), items_view(final(items)@), r.0, r.1, la_universe(self.prods()), self.prods().len()),
            item_in(items_view(final(items)@), key, look_ahead@),
            forall|pp: u32, d: usize| #[trigger] present(items_view(final(items)@), pp, d) ==> present(items_view(old(items)@), pp, d)
                || (pp == key.production && d == 0),
            forall|pp: u32, d: usize, x: TokenView| #[trigger] la_has(items_view(final(items)@), pp, d, x) ==> la_has(items_view(old(items)@), pp, d, x)
                || (pp == key.production && d == 0 && has_token(look_ahead@, x)),
    {
        let ghost prods = self.prods();
        let ghost u = la_universe(prods);
        let ghost n = prods.len();
        let ghost before = items_view(items@);
        let ghost before_items = items@;
        let (ins, chg) = merge_item(items, key, look_ahead);
        proof {
            let after = items_view(items@);
            lemma_merge_keys(prods, before_items, items@, key, self.start(), self.error_nt());
            lemma_merge_within(before, after, key, look_ahead@, u);
            lemma_merge_grows(before_items, items@, key, look_ahead@, ins, chg, u, n);
            assert forall|pp: u32, d: usize| #[trigger] present(after, pp, d) implies present(before, pp, d)
                || (pp == key.production && d == 0) by {
                let j = choose|j: int| 0 <= j < after.len() && (#[trigger] after[j]).0.production == pp && after[j].0.dot == d;
                if after[j].0 != key {
                    let i = choose|i: int| 0 <= i < before_items.len() && before_items[i].0 == items@[j].0;
                    assert(before[i].0 == before_items[i].0);
                }
            }
        }
        (ins, chg)
    }

    /// Adds to `items` the items that the item `key` with look ahead set
    /// `la` brings in, with the look ahead tokens it passes on to them.
    #[verifier::rlimit(60)]
    fn close_item(&self, items: &mut Vec<(GrammarItemKey, TokenSet)>, key: GrammarItemKey, la: &TokenSet) -> (r: (bool, bool))
        requires
            self.wf(),
            items_sound(old(items)@),
            keys_valid(self.prods(), items_view(old(items)@), self.start(), self.error_nt()),
            la_within(items_view(old(items)@), la_universe(self.prods())),
            key.production < self.prods().len(),
            key.dot <= self.prods()[key.production as int].right_hand_side.len(),
            la.wf(),
            forall|x: TokenView| #[trigger] has_token(la@, x) ==> has_token(la_universe(self.prods()), x),
        ensures
            items_sound(final(items)@),
            keys_valid(self.prods(), items_view(final(items)@), self.start(), self.error_nt()),
            la_within(items_view(final(items)@), la_universe(self.prods())),
            grows(items_view(old(items)@), items_view(final(items)@), r.0, r.1, la_universe(self.prods()), self.prods().len()),
            forall|q: int| 0 <= q < self.prods().len() && #[trigger] closes_into(self.prods(), key, q) && la@.len() > 0
                ==> present(items_view(final(items)@), q as u32, 0),
            forall|q: int, x: TokenView| 0 <= q < self.prods().len() && #[trigger] closes_into(self.prods(), key, q)
                && #[trigger] passes_on(self.firsts_table(), self.prods(), key, la@, x) ==> la_has(items_view(final(items)@), q as u32, 0, x),
            forall|p: u32, d: usize| #[trigger] present(items_view(final(items)@), p, d) ==> present(items_view(old(items)@), p, d)
                || (d == 0 && p < self.prods().len() && closes_into(self.prods(), key, p as int) && la@.len() > 0),
            forall|p: u32, d: usize, x: TokenView| #[trigger] la_has(items_view(final(items)@), p, d, x) ==> la_has(items_view(old(items)@), p, d, x)
                || (d == 0 && p < self.prods().len() && closes_into(self.prods(), key, p as int)
                && passes_on(self.firsts_table(), self.prods(), key, la@, x)),
    {
        let ghost prods = self.prods();
        let ghost f = self.firsts_table();
        let ghost u = la_universe(prods);
        let ghost n = prods.len();
        let ghost v0 = items_view(items@);
        proof {
            lemma_grows_refl(v0, u, n);
        }
        let p = key.production as usize;
        let production = &self.productions[p];
        proof {
            assert(prods[p as int] == production@);
        }
        if key.dot >= production.right_hand_side.len() {
            return (false, false);
        }
        let b = match &production.right_hand_side[key.dot] {
            GrammarSymbol::NonTerminal(b) => *b,
            GrammarSymbol::Terminal(_) => {
                proof {
                    assert(prods[p as int].right_hand_side[key.dot as int] == production.right_hand_side@[key.dot as int]@);
                }
                return (false, false);
            },
        };
        proof {
            assert(prods[p as int].right_hand_side[key.dot as int] == GrammarSymbolView::NonTerminal(b));
        }
        let (_, tail) = production.right_hand_side.as_slice().split_at(key.dot + 1);
        proof {
            assert(symbols_view(tail@) =~= item_tail(prods, key));
            assert(productions_below(prods, self.non_terminal_count as nat));
            assert(symbols_below(item_tail(prods, key), self.firsts@.len() as nat)) by {
                assert forall|i: int| 0 <= i < item_tail(prods, key).len() implies match #[trigger] item_tail(prods, key)[i] {
                    GrammarSymbolView::NonTerminal(x) => x < self.firsts@.len(),
                    GrammarSymbolView::Terminal(_) => true,
                } by {
                    assert(item_tail(prods, key)[i] == prods[p as int].right_hand_side[key.dot + 1 + i]);
                }
            }
        }
        let tokens = la.iter();
        let mut inserted = false;
        let mut changed = false;
        let mut m: usize = 0;
        while m < tokens.len()
            invariant
                self.wf(),
                prods == self.prods(),
                f == self.firsts_table(),
                u == la_universe(prods),
                n == prods.len(),
                key.production == p,
                p < prods.len(),
                prods[p as int].right_hand_side[key.dot as int] == GrammarSymbolView::NonTerminal(b),
                key.dot < prods[p as int].right_hand_side.len(),
                symbols_view(tail@) == item_tail(prods, key),
                symbols_below(symbols_view(tail@), self.firsts@.len() as nat),
                m <= tokens@.len(),
                tokens@.map_values(|t: crate::terminal::Token| t@) == la@,
                la.wf(),
                forall|x: TokenView| #[trigger] has_token(la@, x) ==> has_token(u, x),
                items_sound(items@),
                keys_valid(prods, items_view(items@), self.start(), self.error_nt()),
                la_within(items_view(items@), u),
                grows(v0, items_view(items@), inserted, changed, u, n),
                m > 0 ==> forall|q: int| 0 <= q < n && #[trigger] closes_into(prods, key, q) ==> present(items_view(items@), q as u32, 0),
                m > 0 ==> forall|q: int, x: TokenView| 0 <= q < n && #[trigger] closes_into(prods, key, q)
                    && #[trigger] string_first_has(f, item_tail(prods, key), x) ==> la_has(items_view(items@), q as u32, 0, x),
                forall|q: int, x: TokenView, k: int| 0 <= q < n && 0 <= k < m && #[trigger] closes_into(prods, key, q)
                    && string_transparent(f, item_tail(prods, key)) && #[trigger] same_token(la@[k], x)
                    ==> la_has(items_view(items@), q as u32, 0, x),
                forall|pp: u32, d: usize| #[trigger] present(items_view(items@), pp, d) ==> present(v0, pp, d)
                    || (d == 0 && pp < n && closes_into(prods, key, pp as int) && la@.len() > 0),
                forall|pp: u32, d: usize, x: TokenView| #[trigger] la_has(items_view(items@), pp, d, x) ==> la_has(v0, pp, d, x)
                    || (d == 0 && pp < n && closes_into(prods, key, pp as int) && passes_on(f, prods, key, la@, x)),
            decreases tokens@.len() - m,
        {
            proof {
                assert(la@[m as int] == tokens@[m as int]@);
            }
            let firsts = TokenSet::first_all_caps(&self.firsts, tail, &tokens[m]);
            proof {
                assert forall|x: TokenView| #[trigger] has_token(firsts@, x) implies has_token(u, x) && passes_on(f, prods, key, la@, x) by {
                    if string_first_has(f, item_tail(prods, key), x) {
                        lemma_string_first_within(f, item_tail(prods, key), grammar_terminals(prods), x);
                        if has_token(rhs_terminals(item_tail(prods, key)), x) {
                            lemma_rhs_terminals_skip(prods[p as int].right_hand_side, key.dot + 1, x);
                            lemma_grammar_terminals(prods, p as int, x);
                        }
                        lemma_has_concat(grammar_terminals(prods), seq![TokenView::EndToken], x);
                        assert(grammar_terminals(prods) + seq![TokenView::EndToken] =~= u);
                        assert(la@.len() > 0);
                    } else {
                        assert(same_token(la@[m as int], x));
                        assert(has_token(la@, x));
                    }
                }
            }
            let ghost before_q = items_view(items@);
            let ghost ins_q = inserted;
            let ghost chg_q = changed;
            let mut q: usize = 0;
            while q < self.productions.len()
                invariant
                    self.wf(),
                    prods == self.prods(),
                    f == self.firsts_table(),
                    u == la_universe(prods),
                    n == prods.len(),
                    key.production == p,
                    p < prods.len(),
                    prods[p as int].right_hand_side[key.dot as int] == GrammarSymbolView::NonTerminal(b),
                    key.dot < prods[p as int].right_hand_side.len(),
                    symbols_view(tail@) == item_tail(prods, key),
                    m < tokens@.len(),
                    q <= n,
                    firsts.wf(),
                    forall|x: TokenView| #[trigger] has_token(firsts@, x) ==> has_token(u, x) && passes_on(f, prods, key, la@, x),
                    forall|x: TokenView| #[trigger] has_token(firsts@, x) <==> string_first_has(f, item_tail(prods, key), x)
                        || (string_transparent(f, item_tail(prods, key)) && same_token(la@[m as int], x)),
                    la@.len() > 0,
                    items_sound(items@),
                    keys_valid(prods, items_view(items@), self.start(), self.error_nt()),
                    la_within(items_view(items@), u),
                    grows(v0, items_view(items@), inserted, changed, u, n),
                    includes(items_view(items@), before_q),
                    forall|qq: int| 0 <= qq < q && #[trigger] closes_into(prods, key, qq) ==> present(items_view(items@), qq as u32, 0),
                    forall|qq: int, x: TokenView| 0 <= qq < q && #[trigger] closes_into(prods, key, qq) && #[trigger] has_token(firsts@, x)
                        ==> la_has(items_view(items@), qq as u32, 0, x),
                    forall|pp: u32, d: usize| #[trigger] present(items_view(items@), pp, d) ==> present(v0, pp, d)
                        || (d == 0 && pp < n && closes_into(prods, key, pp as int) && la@.len() > 0),
                    forall|pp: u32, d: usize, x: TokenView| #[trigger] la_has(items_view(items@), pp, d, x) ==> la_has(v0, pp, d, x)
                        || (d == 0 && pp < n && closes_into(prods, key, pp as int) && passes_on(f, prods, key, la@, x)),
                decreases n - q,
            {
                proof {
                    assert(prods[q as int] == self.productions@[q as int]@);
                }
                if self.productions[q].left_hand_side == b {
                    let qkey = self.productions[q].start_item(self.start_non_terminal, self.error_non_terminal);
                    let ghost before = items_view(items@);
                    proof {
                        assert(prods[q as int].ident == q);
                        assert(closes_into(prods, key, q as int));
                    }
                    let (ins, chg) = self.merge_valid(items, qkey, &firsts);
                    proof {
                        let after = items_view(items@);
                        lemma_grows_trans(v0, before, after, inserted, changed, ins, chg, u, n);
                        lemma_includes_trans(after, before, before_q);
                        lemma_includes_facts(after, before);
                        assert forall|pp: u32, d: usize| #[trigger] present(after, pp, d) implies present(v0, pp, d)
                            || (d == 0 && pp < n && closes_into(prods, key, pp as int) && la@.len() > 0) by {
                            if !present(before, pp, d) {
                                assert(pp == q && d == 0);
                            }
                        }
                        assert forall|pp: u32, d: usize, x: TokenView| #[trigger] la_has(after, pp, d, x) implies la_has(v0, pp, d, x)
                            || (d == 0 && pp < n && closes_into(prods, key, pp as int) && passes_on(f, prods, key, la@, x)) by {
                            if !la_has(before, pp, d, x) {
                                assert(pp == q && d == 0 && has_token(firsts@, x));
                            }
                        }
                        assert forall|qq: int, x: TokenView| 0 <= qq < q + 1 && #[trigger] closes_into(prods, key, qq) && #[trigger] has_token(firsts@, x)
                            implies la_has(after, qq as u32, 0, x) by {
                            if qq < q {
                                assert(la_has(before, qq as u32, 0, x));
                            }
                        }
                        assert forall|qq: int| 0 <= qq < q + 1 && #[trigger] closes_into(prods, key, qq) implies present(after, qq as u32, 0) by {
                            if qq < q {
                                assert(present(before, qq as u32, 0));
                            }
                        }
                    }
                    inserted = inserted || ins;
                    changed = changed || chg;
                } else {
                    proof {
                        assert forall|qq: int| 0 <= qq < q + 1 && #[trigger] closes_into(prods, key, qq) implies present(items_view(items@), qq as u32, 0) by {
                            if qq == q {
                                assert(prods[q as int].left_hand_side != b);
                            }
                        }
                        assert forall|qq: int, x: TokenView| 0 <= qq < q + 1 && #[trigger] closes_into(prods, key, qq) && #[trigger] has_token(firsts@, x)
                            implies la_has(items_view(items@), qq as u32, 0, x) by {
                            if qq == q {
                                assert(prods[q as int].left_hand_side != b);
                            }
                        }
                    }
                }
                q = q + 1;
            }
            proof {
                let now = items_view(items@);
                lemma_includes_facts(now, before_q);
                assert forall|qq: int, x: TokenView| 0 <= qq < n && #[trigger] closes_into(prods, key, qq)
                    && #[trigger] string_first_has(f, item_tail(prods, key), x) implies la_has(now, qq as u32, 0, x) by {
                    assert(has_token(firsts@, x));
                }
                assert forall|qq: int, x: TokenView, k: int| 0 <= qq < n && 0 <= k < m + 1 && #[trigger] closes_into(prods, key, qq)
                    && string_transparent(f, item_tail(prods, key)) && #[trigger] same_token(la@[k], x)
                    implies la_has(now, qq as u32, 0, x) by {
                    if k == m {
                        assert(has_token(firsts@, x));
                    } else {
                        assert(la_has(before_q, qq as u32, 0, x));
                    }
                }
            }
            m = m + 1;
        }
        proof {
            let now = items_view(items@);
            assert(tokens@.len() == la@.len());
            assert(m == la@.len());
            assert forall|q: int, x: TokenView| 0 <= q < n && #[trigger] closes_into(prods, key, q)
                && #[trigger] passes_on(f, prods, key, la@, x) implies la_has(now, q as u32, 0, x) by {
                if string_first_has(f, item_tail(prods, key), x) {
                    assert(0 < m);
                } else {
                    let k = choose|k: int| 0 <= k < la@.len() && same_token(#[trigger] la@[k], x);
                    assert(string_transparent(f, item_tail(prods, key)) && same_token(la@[k], x));
                }
            }
            assert forall|q: int| 0 <= q < n && #[trigger] closes_into(prods, key, q) && la@.len() > 0 implies present(now, q as u32, 0) by {
                assert(tokens@.len() == la@.len());
            }
        }
        (inserted, changed)
    }

    /// The closure of `closure_set`: the least closed set of items that includes it.
    #[verifier::rlimit(60)]
    pub fn closure(&self, closure_set: Vec<(GrammarItemKey, TokenSet)>) -> (r: Vec<(GrammarItemKey, TokenSet)>)
        requires
            self.wf(),
            items_sound(closure_set@),
            keys_valid(self.prods(), items_view(closure_set@), self.start(), self.error_nt()),
            la_within(items_view(closure_set@), la_universe(self.prods())),
        ensures
            items_sound(r@),
            keys_valid(self.prods(), items_view(r@), self.start(), self.error_nt()),
            la_within(items_view(r@), la_universe(self.prods())),
            least_closure(self.firsts_table(), self.prods(), items_view(closure_set@), items_view(r@)),
    {
        let ghost kernel = items_view(closure_set@);
        let ghost prods = self.prods();
        let ghost f = self.firsts_table();
        let ghost u = la_universe(prods);
        let ghost n = prods.len();
        let mut items = closure_set;
        proof {
            lemma_includes_refl(kernel);
        }
        loop
            invariant
                self.wf(),
                prods == self.prods(),
                f == self.firsts_table(),
                u == la_universe(prods),
                n == prods.len(),
                items_sound(items@),
                keys_valid(prods, items_view(items@), self.start(), self.error_nt()),
                la_within(items_view(items@), u),
                includes(items_view(items@), kernel),
                forall|g: Seq<(GrammarItemKey, Seq<TokenView>)>| includes(g, kernel) && #[trigger] items_closed(f, prods, g)
                    ==> includes(g, items_view(items@)),
            ensures
                items_sound(items@),
                keys_valid(prods, items_view(items@), self.start(), self.error_nt()),
                la_within(items_view(items@), u),
                includes(items_view(items@), kernel),
                items_closed(f, prods, items_view(items@)),
                forall|g: Seq<(GrammarItemKey, Seq<TokenView>)>| includes(g, kernel) && #[trigger] items_closed(f, prods, g)
                    ==> includes(g, items_view(items@)),
            decreases absent_count(items_view(items@), n), la_measure(items_view(items@), u),
        {
            let snapshot = copy_items(&items);
            let ghost s0 = items_view(items@);
            proof {
                assert forall|j: int| 0 <= j < snapshot@.len() implies (#[trigger] snapshot@[j]).1.wf() by {
                    assert(items@[j].1.wf());
                }
            }
            let mut inserted = false;
            let mut changed = false;
            proof {
                lemma_grows_refl(s0, u, n);
            }
            let mut i: usize = 0;
            while i < snapshot.len()
                invariant
                    self.wf(),
                    prods == self.prods(),
                    f == self.firsts_table(),
                    u == la_universe(prods),
                    n == prods.len(),
                    i <= snapshot@.len(),
                    items_view(snapshot@) == s0,
                    items_sound(snapshot@),
                    keys_valid(prods, items_view(snapshot@), self.start(), self.error_nt()),
                    la_within(s0, u),
                    items_sound(items@),
                    keys_valid(prods, items_view(items@), self.start(), self.error_nt()),
                    la_within(items_view(items@), u),
                    grows(s0, items_view(items@), inserted, changed, u, n),
                    includes(items_view(items@), kernel),
                    forall|g: Seq<(GrammarItemKey, Seq<TokenView>)>| includes(g, kernel) && #[trigger] items_closed(f, prods, g)
                        ==> includes(g, items_view(items@)),
                    forall|j: int, q: int| 0 <= j < i && 0 <= q < n && #[trigger] closes_into(prods, s0[j].0, q) && s0[j].1.len() > 0
                        ==> present(items_view(items@), q as u32, 0),
                    forall|j: int, q: int, x: TokenView| 0 <= j < i && 0 <= q < n && #[trigger] closes_into(prods, s0[j].0, q)
                        && #[trigger] passes_on(f, prods, s0[j].0, s0[j].1, x) ==> la_has(items_view(items@), q as u32, 0, x),
                decreases snapshot@.len() - i,
            {
                let ghost before = items_view(items@);
                proof {
                    assert(s0[i as int] == (snapshot@[i as int].0, snapshot@[i as int].1@));
                    assert(snapshot@[i as int].1.wf());
                    assert forall|x: TokenView| #[trigger] has_token(snapshot@[i as int].1@, x) implies has_token(u, x) by {
                        assert(has_token(s0[i as int].1, x));
                    }
                }
                let (ins, chg) = self.close_item(&mut items, snapshot[i].0, &snapshot[i].1);
                proof {
                    let after = items_view(items@);
                    let key = s0[i as int].0;
                    let la = s0[i as int].1;
                    lemma_grows_trans(s0, before, after, inserted, changed, ins, chg, u, n);
                    lemma_includes_trans(after, before, kernel);
                    assert forall|g: Seq<(GrammarItemKey, Seq<TokenView>)>| includes(g, kernel) && #[trigger] items_closed(f, prods, g)
                        implies includes(g, after) by {
                        assert(includes(g, before));
                        lemma_includes_trans(g, before, s0);
                        assert(item_in(g, s0[i as int].0, s0[i as int].1));
                        lemma_close_item_least(f, prods, g, before, after, key, la);
                    }
                    lemma_includes_facts(after, before);
                    assert forall|j: int, q: int| 0 <= j < i + 1 && 0 <= q < n && #[trigger] closes_into(prods, s0[j].0, q) && s0[j].1.len() > 0
                        implies present(after, q as u32, 0) by {
                        if j < i {
                            assert(present(before, q as u32, 0));
                        }
                    }
                    assert forall|j: int, q: int, x: TokenView| 0 <= j < i + 1 && 0 <= q < n && #[trigger] closes_into(prods, s0[j].0, q)
                        && #[trigger] passes_on(f, prods, s0[j].0, s0[j].1, x) implies la_has(after, q as u32, 0, x) by {
                        if j < i {
                            assert(la_has(before, q as u32, 0, x));
                        }
                    }
                }
                inserted = inserted || ins;
                changed = changed || chg;
                i = i + 1;
            }
            if !changed {
                proof {
                    let cur = items_view(items@);
                    assert(cur == s0);
                    assert forall|j: int, q: int| 0 <= j < cur.len() && 0 <= q < prods.len() && #[trigger] closes_into(prods, cur[j].0, q)
                        && cur[j].1.len() > 0 implies present(cur, q as u32, 0) by {
                        assert(closes_into(prods, s0[j].0, q));
                    }
                    assert forall|j: int, q: int, x: TokenView| 0 <= j < cur.len() && 0 <= q < prods.len() && #[trigger] closes_into(prods, cur[j].0, q)
                        && #[trigger] passes_on(f, prods, cur[j].0, cur[j].1, x) implies la_has(cur, q as u32, 0, x) by {
                        assert(closes_into(prods, s0[j].0, q));
                    }
                }
                break;
            }
        }
        items
    }

    /// Goes from state `s` on `symbol`: the closure of its goto kernel is
    /// merged into the state with the same kernel, or becomes a new state.
    /// Gives the state gone to, or nothing where no new state can be numbered.
    #[verifier::rlimit(80)]
    fn goto_on(&self, states: &mut Vec<ParserState>, s: usize, symbol: &GrammarSymbol) -> (r: Option<u32>)
        requires
            self.wf(),
            states_sound(self.prods(), self.start(), self.error_nt(), la_universe(self.prods()), self.non_terminals(), old(states)@),
            s < old(states)@.len(),
            old(states)@.len() <= u32::MAX,
        ensures
            states_sound(self.prods(), self.start(), self.error_nt(), la_universe(self.prods()), self.non_terminals(), final(states)@),
            final(states)@.len() <= u32::MAX,
            final(states)@.len() >= old(states)@.len(),
            match r {
                Some(t) => t < final(states)@.len(),
                None => final(states)@ == old(states)@,
            },
            forall|t: int| 0 <= t < old(states)@.len() ==> state_grown(old(states)@[t]@, #[trigger] final(states)@[t]@),
            exists|c: Seq<(GrammarItemKey, Seq<TokenView>)>| #[trigger] least_closure(self.firsts_table(), self.prods(),
                goto_kernel(self.prods(), old(states)@[s as int]@.items, symbol@), c)
                && goto_outcome(old(states)@, final(states)@, c, r),
            kernels_distinct(old(states)@) ==> kernels_distinct(final(states)@),
            final(states)@.len() == old(states)@.len() ==> {
                ||| states_la(states_view(final(states)@), la_universe(self.prods())) < states_la(states_view(old(states)@), la_universe(self.prods()))
                ||| (states_la(states_view(final(states)@), la_universe(self.prods())) == states_la(states_view(old(states)@), la_universe(self.prods()))
                    && unprocessed(states_view(final(states)@)) == unprocessed(states_view(old(states)@)))
            },
    {
        let ghost prods = self.prods();
        let ghost u = la_universe(prods);
        let ghost sv0 = states_view(states@);
        proof {
            assert(states@[s as int].wf());
        }
        let kernel_x = self.generate_goto_kernel(states[s].grammar_items(), symbol);
        proof {
            lemma_goto_kernel_within(prods, states@[s as int]@.items, symbol@, u);
        }
        let item_set_x = self.closure(kernel_x);
        let ghost c = items_view(item_set_x@);
        let ghost k = goto_kernel(prods, states@[s as int]@.items, symbol@);
        proof {
            assert(items_view(kernel_x@) == k);
            assert(least_closure(self.firsts_table(), prods, k, c));
        }
        match equivalent_state(states, &item_set_x) {
            Some(t) => {
                let ghost old_t = states@[t as int]@;
                let ghost iv = items_view(item_set_x@);
                proof {
                    assert(states@[t as int].wf());
                    lemma_kernel_pairs(iv);
                    lemma_kernel_pairs(old_t.items);
                    assert forall|c: int| 0 <= c < item_set_x@.len() && ((#[trigger] item_set_x@[c]).0.dot > 0 || item_set_x@[c].0.is_start)
                        implies exists|b: int| 0 <= b < old_t.items.len() && (#[trigger] old_t.items[b]).0.same_item(item_set_x@[c].0) by {
                        assert(iv[c].0 == item_set_x@[c].0);
                        assert(kernel_pairs(iv).contains((iv[c].0.production, iv[c].0.dot)));
                        let b = choose|b: int| 0 <= b < old_t.items.len() && (#[trigger] old_t.items[b]).0.production == iv[c].0.production
                            && old_t.items[b].0.dot == iv[c].0.dot;
                        assert(old_t.items[b].0.same_item(item_set_x@[c].0));
                    }
                }
                states[t].merge_lookahead_sets(&item_set_x);
                proof {
                    let new_t = states@[t as int]@;
                    let sv1 = states_view(states@);
                    assert(sv1 =~= sv0.update(t as int, new_t));
                    lemma_states_update(sv0, t as int, new_t, u);
                    assert(new_t.items.len() == old_t.items.len());
                    // the look ahead tokens merged in are among those that can be
                    assert forall|b: int, x: TokenView| 0 <= b < new_t.items.len() && #[trigger] has_token(new_t.items[b].1, x)
                        implies has_token(u, x) by {
                        if !has_token(old_t.items[b].1, x) {
                            assert(crate::state::merged_look_ahead_has(old_t, iv, b, x));
                            let c = choose|c: int| 0 <= c < iv.len() && (#[trigger] iv[c]).0.same_item(old_t.items[b].0)
                                && (iv[c].0.dot > 0 || iv[c].0.is_start) && has_token(iv[c].1, x);
                        }
                    }
                    assert forall|j: int| 0 <= j < new_t.items.len() implies ({
                        let k = (#[trigger] new_t.items[j]).0;
                        &&& k.production < prods.len()
                        &&& k.dot <= prods[k.production as int].right_hand_side.len()
                        &&& k == item_key(prods[k.production as int], k.dot, self.start(), self.error_nt())
                    }) by {
                        assert(new_t.items[j].0 == old_t.items[j].0);
                    }
                    assert(state_grown(old_t, new_t));
                    assert forall|tt: int| 0 <= tt < states@.len() implies state_grown(sv0[tt], #[trigger] states@[tt]@) by {
                        if tt != t {
                            assert(states@[tt] == old(states)@[tt]);
                        }
                    }
                    // the measures
                    lemma_la_measure_grow(old_t.items, new_t.items, u, 0, arbitrary());
                    if crate::state::merge_adds(old_t, iv) {
                        let (b, x) = choose|b: int, x: TokenView| 0 <= b < old_t.items.len()
                            && #[trigger] crate::state::merged_look_ahead_has(old_t, iv, b, x) && !has_token(old_t.items[b].1, x);
                        let c = choose|c: int| 0 <= c < iv.len() && (#[trigger] iv[c]).0.same_item(old_t.items[b].0)
                            && (iv[c].0.dot > 0 || iv[c].0.is_start) && has_token(iv[c].1, x);
                        assert(has_token(u, x));
                        lemma_la_measure_grow(old_t.items, new_t.items, u, b, x);
                    } else {
                        lemma_la_measure_grow(new_t.items, old_t.items, u, 0, arbitrary());
                    }
                    assert(states_sound(prods, self.start(), self.error_nt(), u, self.non_terminals(), states@)) by {
                        assert forall|ss: int| 0 <= ss < states@.len() implies state_sound(prods, self.start(), self.error_nt(), u, self.non_terminals(), #[trigger] states@[ss], ss, states@.len()) by {
                            if ss != t {
                                assert(states@[ss] == old(states)@[ss]);
                            }
                        }
                    }
                    assert(merged_from(old_t, new_t, c));
                    if kernels_distinct(old(states)@) {
                        lemma_kernels_kept(old(states)@, states@);
                    }
                    assert forall|kk: int| 0 <= kk < old(states)@.len() && kk != t implies #[trigger] states@[kk] == old(states)@[kk] by {}
                    assert(goto_outcome(old(states)@, states@, c, Some(t as u32)));
                }
                Some(t as u32)
            },
            None => {
                if states.len() >= u32::MAX as usize {
                    proof {
                        assert(goto_outcome(old(states)@, states@, c, None));
                    }
                    return None;
                }
                let ident = states.len() as u32;
                let state = ParserState::new(ident, item_set_x);
                states.push(state);
                proof {
                    assert forall|tt: int| 0 <= tt < old(states)@.len() implies state_grown(old(states)@[tt]@, #[trigger] states@[tt]@) by {
                        assert(states@[tt] == old(states)@[tt]);
                        assert forall|j: int, x: TokenView| 0 <= j < old(states)@[tt]@.items.len() && #[trigger] has_token(old(states)@[tt]@.items[j].1, x)
                            implies has_token(states@[tt]@.items[j].1, x) by {}
                    }
                    assert(states_sound(prods, self.start(), self.error_nt(), u, self.non_terminals(), states@)) by {
                        assert forall|ss: int| 0 <= ss < states@.len() implies state_sound(prods, self.start(), self.error_nt(), u, self.non_terminals(), #[trigger] states@[ss], ss, states@.len()) by {
                            if ss < old(states)@.len() {
                                assert(states@[ss] == old(states)@[ss]);
                                assert(targets_below(old(states)@[ss]@, old(states)@.len()));
                            }
                        }
                    }
                    assert forall|kk: int| 0 <= kk < old(states)@.len() implies #[trigger] states@[kk] == old(states)@[kk] by {}
                    assert(goto_outcome(old(states)@, states@, c, Some(ident)));
                    if kernels_distinct(old(states)@) {
                        lemma_kernels_kept(old(states)@, states@);
                    }
                }
                Some(ident)
            },
        }
    }

    /// Records in the `s`th state, processed for the first time, that it
    /// goes on `symbol` to the state `target`: a shift of a token, or a goto
    /// on a non terminal (and the error recovery state, on the error symbol).
    #[verifier::rlimit(40)]
    fn add_transition(&self, states: &mut Vec<ParserState>, s: usize, symbol: &GrammarSymbol, target: u32)
        requires
            self.wf(),
            states_sound(self.prods(), self.start(), self.error_nt(), la_universe(self.prods()), self.non_terminals(), old(states)@),
            s < old(states)@.len(),
            target < old(states)@.len(),
            match symbol@ {
                GrammarSymbolView::NonTerminal(nt) => nt < self.non_terminals(),
                _ => true,
            },
        ensures
            states_sound(self.prods(), self.start(), self.error_nt(), la_universe(self.prods()), self.non_terminals(), final(states)@),
            final(states)@.len() == old(states)@.len(),
            forall|k: int| 0 <= k < old(states)@.len() && k != s ==> #[trigger] final(states)@[k] == old(states)@[k],
            final(states)@[s as int]@.items == old(states)@[s as int]@.items,
            final(states)@[s as int]@.processed_state == old(states)@[s as int]@.processed_state,
            transitions_match(self.firsts_table(), self.prods(), old(states)@)
                && leads_to(self.firsts_table(), self.prods(), old(states)@, s as int, symbol@, target as int)
                ==> transitions_match(self.firsts_table(), self.prods(), final(states)@),
    {
        proof {
            assert(old(states)@[s as int].wf());
        }
        let ghost st_mid = states@;
        let ghost u = la_universe(self.prods());
        let ghost prods = self.prods();
        let ghost f = self.firsts_table();
        let ghost old_s = states@[s as int]@;
        match &symbol {
            GrammarSymbol::Terminal(token) => {
                states[s].add_shift_action(token, target);
                proof {
                    let new_s = states@[s as int]@;
                    assert forall|k: int| 0 <= k < new_s.shifts.len() implies (#[trigger] new_s.shifts[k]).1 < states@.len() by {
                        assert(targets_below(old_s, st_mid.len()));
                        if crate::state::shifts_token(old_s, token@) {
                            let kk = choose|kk: int| 0 <= kk < old_s.shifts.len() && crate::terminal::same_token(old_s.shifts[kk].0, token@)
                                && new_s.shifts == old_s.shifts.update(kk, (old_s.shifts[kk].0, target));
                            if k != kk {
                                assert(new_s.shifts[k] == old_s.shifts[k]);
                            }
                        } else {
                            let pp = choose|pp: int| 0 <= pp <= old_s.shifts.len()
                                && new_s.shifts == old_s.shifts.insert(pp, (token@, target));
                            if k < pp {
                                assert(new_s.shifts[k] == old_s.shifts[k]);
                            } else if k > pp {
                                assert(new_s.shifts[k] == old_s.shifts[k - 1]);
                            }
                        }
                    }
                    assert forall|k: int| 0 <= k < st_mid.len() && k != s implies #[trigger] states@[k] == st_mid[k] by {}
                    if transitions_match(f, prods, st_mid) && leads_to(f, prods, st_mid, s as int, symbol@, target as int) {
                        lemma_shift_added(f, prods, st_mid, states@, s as int, token@, target);
                    }
                }
            },
            GrammarSymbol::NonTerminal(nt) => {
                if *nt == self.error_non_terminal {
                    states[s].set_error_recovery_state(target);
                }
                states[s].add_goto(*nt, target);
                proof {
                    let new_s = states@[s as int]@;
                    assert(targets_below(old_s, st_mid.len()));
                    assert forall|k: int| 0 <= k < new_s.gotos.len() implies (#[trigger] new_s.gotos[k]).1 < states@.len() by {
                        if k < old_s.gotos.len() {
                            assert(new_s.gotos[k] == old_s.gotos[k]);
                        }
                    }
                    assert forall|k: int| 0 <= k < st_mid.len() && k != s implies #[trigger] states@[k] == st_mid[k] by {}
                    if transitions_match(f, prods, st_mid) && leads_to(f, prods, st_mid, s as int, symbol@, target as int) {
                        lemma_goto_added(f, prods, st_mid, states@, s as int, *nt, target);
                    }
                }
            },
        }
        proof {
            let new_s = states@[s as int]@;
            assert(new_s.items == old_s.items);
            assert(new_s.processed_state == old_s.processed_state);
            assert(states_sound(prods, self.start(), self.error_nt(), u, self.non_terminals(), states@)) by {
                assert forall|ss: int| 0 <= ss < states@.len() implies state_sound(prods, self.start(), self.error_nt(), u,
                    self.non_terminals(), #[trigger] states@[ss], ss, states@.len()) by {
                    if ss != s {
                        assert(states@[ss] == st_mid[ss]);
                    }
                }
            }
        }
    }

    /// The symbol after the dot of item `key`.
    fn next_symbol(&self, key: GrammarItemKey) -> (r: GrammarSymbol)
        requires
            self.prods_wf(),
            key.production < self.prods().len(),
            key.dot < self.prods()[key.production as int].right_hand_side.len(),
        ensures
            r@ == self.prods()[key.production as int].right_hand_side[key.dot as int],
    {
        proof {
            assert(self.prods()[key.production as int] == self.productions@[key.production as int]@);
        }
        self.productions[key.production as usize].right_hand_side[key.dot].snapshot()
    }

    /// The item of the start production with the dot at its start, with the
    /// end token as its only look ahead token.
    pub open spec fn start_kernel(&self) -> Seq<(GrammarItemKey, Seq<TokenView>)> {
        seq![(item_key(self.prods()[0], 0, self.start(), self.error_nt()), seq![TokenView::EndToken])]
    }
}


/// Trimming the look ahead sets of reducible items keeps a state free of
/// conflicts between shifting and reducing.
pub proof fn lemma_trimming_keeps_sr_freedom(s: ParserStateView, t: ParserStateView)
    requires
        crate::state::free_of_shift_reduce_conflicts(s),
        crate::state::look_aheads_trimmed(s, t),
        t.shifts == s.shifts,
    ensures
        crate::state::free_of_shift_reduce_conflicts(t),
{
    assert forall|k: int, i: int|
        0 <= k < t.shifts.len() && 0 <= i < t.items.len() && (#[trigger] t.items[i]).0.reducible()
            implies !has_token(t.items[i].1, (#[trigger] t.shifts[k]).0) by {
        assert(s.items[i].0 == t.items[i].0);
        if has_token(t.items[i].1, t.shifts[k].0) {
            let j = choose|j: int| 0 <= j < t.items[i].1.len() && same_token(#[trigger] t.items[i].1[j], t.shifts[k].0);
            assert(t.items[i].1.contains(t.items[i].1[j]));
            assert(s.items[i].1.contains(t.items[i].1[j]));
            let m = choose|m: int| 0 <= m < s.items[i].1.len() && s.items[i].1[m] == t.items[i].1[j];
            assert(has_token(s.items[i].1, s.shifts[k].0));
        }
    }
}

/// The states built so far and the values of the measure that bounds how
/// many more rounds can follow.
pub open spec fn build_measure_lt(
    n1: nat, b1: nat, c1: nat,
    n0: nat, b0: nat, c0: nat,
) -> bool {
    n1 > n0 || (n1 == n0 && (b1 < b0 || (b1 == b0 && c1 < c0)))
}

/// A state that grew keeps the items it had, with their look ahead tokens.
pub proof fn lemma_grown_includes(a: ParserStateView, b: ParserStateView)
    requires
        state_grown(a, b),
    ensures
        includes(b.items, a.items),
{
    assert forall|j: int| 0 <= j < a.items.len() implies item_in(b.items, (#[trigger] a.items[j]).0, a.items[j].1) by {
        assert(b.items[j].0 == a.items[j].0);
        assert(present(b.items, a.items[j].0.production, a.items[j].0.dot));
        assert forall|x: TokenView| #[trigger] has_token(a.items[j].1, x) implies la_has(b.items, a.items[j].0.production, a.items[j].0.dot, x) by {
            assert(has_token(b.items[j].1, x));
        }
    }
}

/// The items `a` have the keys of the items `b`, in the same order.
pub open spec fn same_keys(a: Seq<(GrammarItemKey, Seq<TokenView>)>, b: Seq<(GrammarItemKey, Seq<TokenView>)>) -> bool {
    &&& a.len() == b.len()
    &&& forall|j: int| 0 <= j < a.len() ==> (#[trigger] a[j]).0 == b[j].0
}

/// `c` is the closure of the goto kernel of the items `v` on a symbol `x`
/// that stands after the dot of one of them.
pub open spec fn goto_closure(
    f: Seq<(Seq<TokenView>, bool)>,
    prods: Seq<ProductionView>,
    v: Seq<(GrammarItemKey, Seq<TokenView>)>,
    x: GrammarSymbolView,
    c: Seq<(GrammarItemKey, Seq<TokenView>)>,
) -> bool {
    &&& exists|j: int| 0 <= j < v.len() && #[trigger] next_is(prods, v[j].0, x) && v[j].0.dot < usize::MAX
    &&& least_closure(f, prods, goto_kernel(prods, v, x), c)
}

/// The `t`th state of `sts` is reached from an earlier one: its items have
/// the keys of the closure of the goto kernel, on a symbol after a dot, of
/// items with the keys of an earlier state.
pub open spec fn reached_from_earlier(
    f: Seq<(Seq<TokenView>, bool)>,
    prods: Seq<ProductionView>,
    sts: Seq<ParserState>,
    t: int,
) -> bool {
    exists|s: int, x: GrammarSymbolView, v: Seq<(GrammarItemKey, Seq<TokenView>)>, c: Seq<(GrammarItemKey, Seq<TokenView>)>|
        #![trigger goto_closure(f, prods, v, x, c), sts[s]]
        0 <= s < t && goto_closure(f, prods, v, x, c) && same_keys(v, sts[s]@.items) && same_keys(c, sts[t]@.items)
}

/// The states `sts` are reached from the start: the first has the keys of
/// the closure of the start kernel `k0`, and each other state is reached
/// from an earlier one.
pub open spec fn states_reached(
    f: Seq<(Seq<TokenView>, bool)>,
    prods: Seq<ProductionView>,
    k0: Seq<(GrammarItemKey, Seq<TokenView>)>,
    sts: Seq<ParserState>,
) -> bool {
    &&& sts.len() >= 1
    &&& exists|c: Seq<(GrammarItemKey, Seq<TokenView>)>| #[trigger] least_closure(f, prods, k0, c) && same_keys(c, sts[0]@.items)
    &&& forall|t: int| 1 <= t < sts.len() ==> #[trigger] reached_from_earlier(f, prods, sts, t)
}

/// States that keep the keys of their items stay reached, and so do states
/// added after them that are reached from earlier ones.
pub proof fn lemma_reached_kept(
    f: Seq<(Seq<TokenView>, bool)>,
    prods: Seq<ProductionView>,
    k0: Seq<(GrammarItemKey, Seq<TokenView>)>,
    a: Seq<ParserState>,
    b: Seq<ParserState>,
)
    requires
        states_reached(f, prods, k0, a),
        a.len() <= b.len(),
        forall|k: int| 0 <= k < a.len() ==> same_keys(a[k]@.items, #[trigger] b[k]@.items),
        forall|t: int| a.len() <= t < b.len() ==> #[trigger] reached_from_earlier(f, prods, b, t),
    ensures
        states_reached(f, prods, k0, b),
{
    let c0 = choose|c: Seq<(GrammarItemKey, Seq<TokenView>)>| #[trigger] least_closure(f, prods, k0, c) && same_keys(c, a[0]@.items);
    assert(same_keys(a[0]@.items, b[0]@.items));
    assert(same_keys(c0, b[0]@.items));
    assert forall|t: int| 1 <= t < b.len() implies #[trigger] reached_from_earlier(f, prods, b, t) by {
        if t < a.len() {
            assert(reached_from_earlier(f, prods, a, t));
            let (s, x, v, c) = choose|s: int, x: GrammarSymbolView, v: Seq<(GrammarItemKey, Seq<TokenView>)>, c: Seq<(GrammarItemKey, Seq<TokenView>)>|
                #![trigger goto_closure(f, prods, v, x, c), a[s]]
                0 <= s < t && goto_closure(f, prods, v, x, c) && same_keys(v, a[s]@.items) && same_keys(c, a[t]@.items);
            assert(same_keys(a[s]@.items, b[s]@.items));
            assert(same_keys(a[t]@.items, b[t]@.items));
            assert(same_keys(v, b[s]@.items));
            assert(same_keys(c, b[t]@.items));
        }
    }
}

/// The goto kernel of items on a symbol after the dot of one of them holds
/// an item whose dot has moved.
proof fn lemma_goto_kernel_moved(prods: Seq<ProductionView>, v: Seq<(GrammarItemKey, Seq<TokenView>)>, x: GrammarSymbolView, j: int)
    requires
        0 <= j < v.len(),
        next_is(prods, v[j].0, x),
        v[j].0.dot < usize::MAX,
    ensures
        exists|k: int| 0 <= k < goto_kernel(prods, v, x).len() && (#[trigger] goto_kernel(prods, v, x)[k]).0.dot > 0,
    decreases v.len(),
{
    let rest = goto_kernel(prods, v.drop_last(), x);
    if j == v.len() - 1 {
        assert(v.last() == v[j]);
        assert(goto_kernel(prods, v, x)[rest.len() as int].0.dot > 0);
    } else {
        assert(v.drop_last()[j] == v[j]);
        lemma_goto_kernel_moved(prods, v.drop_last(), x, j);
        let k = choose|k: int| 0 <= k < rest.len() && (#[trigger] rest[k]).0.dot > 0;
        assert(goto_kernel(prods, v, x)[k] == rest[k]);
    }
}

/// The closure of a goto kernel on a symbol after a dot has a kernel.
pub proof fn lemma_goto_closure_has_kernel(
    f: Seq<(Seq<TokenView>, bool)>,
    prods: Seq<ProductionView>,
    v: Seq<(GrammarItemKey, Seq<TokenView>)>,
    x: GrammarSymbolView,
    c: Seq<(GrammarItemKey, Seq<TokenView>)>,
)
    requires
        goto_closure(f, prods, v, x, c),
    ensures
        kernel_pairs(c).len() > 0,
{
    let kv = goto_kernel(prods, v, x);
    let j = choose|j: int| 0 <= j < v.len() && #[trigger] next_is(prods, v[j].0, x) && v[j].0.dot < usize::MAX;
    lemma_goto_kernel_moved(prods, v, x, j);
    let k = choose|k: int| 0 <= k < kv.len() && (#[trigger] kv[k]).0.dot > 0;
    assert(item_in(c, kv[k].0, kv[k].1));
    let b = choose|b: int| 0 <= b < c.len() && (#[trigger] c[b]).0.production == kv[k].0.production && c[b].0.dot == kv[k].0.dot;
    lemma_kernel_pairs(c);
    assert(kernel_pairs(c).contains((c[b].0.production, c[b].0.dot)));
}

/// The closure of the goto kernel of items on the symbol after the dot of
/// one of them is a goto closure, with a kernel.
proof fn lemma_goto_closure_of(
    f: Seq<(Seq<TokenView>, bool)>,
    prods: Seq<ProductionView>,
    v: Seq<(GrammarItemKey, Seq<TokenView>)>,
    j: int,
    x: GrammarSymbolView,
    c: Seq<(GrammarItemKey, Seq<TokenView>)>,
)
    requires
        0 <= j < v.len(),
        next_is(prods, v[j].0, x),
        v[j].0.dot < usize::MAX,
        least_closure(f, prods, goto_kernel(prods, v, x), c),
    ensures
        goto_closure(f, prods, v, x, c),
        kernel_pairs(c).len() > 0,
{
    lemma_goto_closure_has_kernel(f, prods, v, x, c);
}

/// Going from the `s`th state on the symbol after the dot of its `j`th item
/// keeps the states reached: the states before keep their keys, and a new
/// state holds the goto closure.
proof fn lemma_goto_step_reached(
    f: Seq<(Seq<TokenView>, bool)>,
    prods: Seq<ProductionView>,
    k0: Seq<(GrammarItemKey, Seq<TokenView>)>,
    before: Seq<ParserState>,
    after: Seq<ParserState>,
    s: int,
    j: int,
    x: GrammarSymbolView,
    t: u32,
)
    requires
        states_reached(f, prods, k0, before),
        0 <= s < before.len(),
        0 <= j < before[s]@.items.len(),
        next_is(prods, before[s]@.items[j].0, x),
        before[s]@.items[j].0.dot < usize::MAX,
        after.len() >= before.len(),
        forall|k: int| 0 <= k < before.len() ==> state_grown(before[k]@, #[trigger] after[k]@),
        exists|c: Seq<(GrammarItemKey, Seq<TokenView>)>| #[trigger] least_closure(f, prods, goto_kernel(prods, before[s]@.items, x), c)
            && goto_outcome(before, after, c, Some(t)),
        transitions_match(f, prods, before),
    ensures
        states_reached(f, prods, k0, after),
        transitions_match(f, prods, after),
        leads_to(f, prods, after, s, x, t as int),
{
    let c = choose|c: Seq<(GrammarItemKey, Seq<TokenView>)>| #[trigger] least_closure(f, prods, goto_kernel(prods, before[s]@.items, x), c)
        && goto_outcome(before, after, c, Some(t));
    let v = before[s]@.items;
    lemma_goto_closure_of(f, prods, v, j, x, c);
    assert forall|k: int| 0 <= k < before.len() implies same_keys(before[k]@.items, #[trigger] after[k]@.items) by {
        assert(state_grown(before[k]@, after[k]@));
    }
    assert forall|tt: int| before.len() <= tt < after.len() implies #[trigger] reached_from_earlier(f, prods, after, tt) by {
        assert(same_keys(before[s]@.items, after[s]@.items));
        assert(same_keys(v, after[s]@.items));
        assert(same_keys(c, after[tt]@.items));
    }
    lemma_reached_kept(f, prods, k0, before, after);
    assert forall|k: int| 0 <= k < before.len() implies same_keys(before[k]@.items, #[trigger] after[k]@.items)
        && (forall|m: (TokenView, u32)| after[k]@.shifts.contains(m) ==> before[k]@.shifts.contains(m))
        && (forall|m: (u32, u32)| after[k]@.gotos.contains(m) ==> before[k]@.gotos.contains(m)) by {
        assert(state_grown(before[k]@, after[k]@));
    }
    lemma_transitions_kept(f, prods, before, after);
    assert(same_keys(v, after[s]@.items)) by {
        assert(state_grown(before[s]@, after[s]@));
    }
    if t < before.len() {
        assert(state_grown(before[t as int]@, after[t as int]@));
        lemma_kernel_pairs_keys(after[t as int]@.items, before[t as int]@.items);
    }
    assert(goto_closure(f, prods, v, x, c));
}

/// Going from the `s`th state of `sts` on `x` leads to the `t`th: its kernel
/// is that of the closure of the goto kernel, on `x` after a dot, of items
/// with the keys of the `s`th state.
pub open spec fn leads_to(
    f: Seq<(Seq<TokenView>, bool)>,
    prods: Seq<ProductionView>,
    sts: Seq<ParserState>,
    s: int,
    x: GrammarSymbolView,
    t: int,
) -> bool {
    &&& 0 <= t < sts.len()
    &&& exists|v: Seq<(GrammarItemKey, Seq<TokenView>)>, c: Seq<(GrammarItemKey, Seq<TokenView>)>|
        #[trigger] goto_closure(f, prods, v, x, c) && same_keys(v, sts[s]@.items) && kernel_pairs(c) == kernel_pairs(sts[t]@.items)
}

/// Each shift and each goto of each state of `sts` leads to the state whose
/// kernel is that of the closure of its goto kernel.
pub open spec fn transitions_match(f: Seq<(Seq<TokenView>, bool)>, prods: Seq<ProductionView>, sts: Seq<ParserState>) -> bool {
    &&& forall|s: int, k: int| 0 <= s < sts.len() && 0 <= k < sts[s]@.shifts.len() ==> leads_to(f, prods, sts, s,
        GrammarSymbolView::Terminal((#[trigger] sts[s]@.shifts[k]).0), sts[s]@.shifts[k].1 as int)
    &&& forall|s: int, k: int| 0 <= s < sts.len() && 0 <= k < sts[s]@.gotos.len() ==> leads_to(f, prods, sts, s,
        GrammarSymbolView::NonTerminal((#[trigger] sts[s]@.gotos[k]).0), sts[s]@.gotos[k].1 as int)
}

/// Goto kernels on like symbols are the same.
proof fn lemma_goto_kernel_same_symbol(prods: Seq<ProductionView>, v: Seq<(GrammarItemKey, Seq<TokenView>)>, x: GrammarSymbolView, y: GrammarSymbolView)
    requires
        same_symbol(x, y),
    ensures
        goto_kernel(prods, v, x) == goto_kernel(prods, v, y),
        forall|j: int| 0 <= j < v.len() ==> (#[trigger] next_is(prods, v[j].0, x) <==> next_is(prods, v[j].0, y)),
    decreases v.len(),
{
    if v.len() > 0 {
        lemma_goto_kernel_same_symbol(prods, v.drop_last(), x, y);
        assert forall|j: int| 0 <= j < v.len() implies (#[trigger] next_is(prods, v[j].0, x) <==> next_is(prods, v[j].0, y)) by {
            if j < v.len() - 1 {
                assert(v.drop_last()[j] == v[j]);
            }
        }
        assert(next_is(prods, v.last().0, x) <==> next_is(prods, v[v.len() - 1].0, x));
    }
}

/// Going on like symbols leads to the same state.
proof fn lemma_leads_same_symbol(
    f: Seq<(Seq<TokenView>, bool)>,
    prods: Seq<ProductionView>,
    sts: Seq<ParserState>,
    s: int,
    x: GrammarSymbolView,
    y: GrammarSymbolView,
    t: int,
)
    requires
        leads_to(f, prods, sts, s, x, t),
        same_symbol(x, y),
    ensures
        leads_to(f, prods, sts, s, y, t),
{
    let (v, c) = choose|v: Seq<(GrammarItemKey, Seq<TokenView>)>, c: Seq<(GrammarItemKey, Seq<TokenView>)>|
        #[trigger] goto_closure(f, prods, v, x, c) && same_keys(v, sts[s]@.items) && kernel_pairs(c) == kernel_pairs(sts[t]@.items);
    lemma_goto_kernel_same_symbol(prods, v, x, y);
    let j = choose|j: int| 0 <= j < v.len() && #[trigger] next_is(prods, v[j].0, x) && v[j].0.dot < usize::MAX;
    assert(next_is(prods, v[j].0, y));
    assert(goto_closure(f, prods, v, y, c));
}

/// Transitions stay matched where the states keep their keys, keep or lose
/// shifts and gotos, and new states have none.
pub proof fn lemma_transitions_kept(f: Seq<(Seq<TokenView>, bool)>, prods: Seq<ProductionView>, a: Seq<ParserState>, b: Seq<ParserState>)
    requires
        transitions_match(f, prods, a),
        a.len() <= b.len(),
        forall|k: int| 0 <= k < a.len() ==> same_keys(a[k]@.items, #[trigger] b[k]@.items)
            && (forall|m: (TokenView, u32)| b[k]@.shifts.contains(m) ==> a[k]@.shifts.contains(m))
            && (forall|m: (u32, u32)| b[k]@.gotos.contains(m) ==> a[k]@.gotos.contains(m)),
        forall|k: int| a.len() <= k < b.len() ==> (#[trigger] b[k])@.shifts.len() == 0 && b[k]@.gotos.len() == 0,
    ensures
        transitions_match(f, prods, b),
{
    assert forall|k: int| 0 <= k < a.len() implies kernel_pairs(#[trigger] b[k]@.items) == kernel_pairs(a[k]@.items) by {
        assert(same_keys(a[k]@.items, b[k]@.items));
        lemma_kernel_pairs_keys(b[k]@.items, a[k]@.items);
    }
    assert forall|s: int, x: GrammarSymbolView, t: int| 0 <= s < a.len() && #[trigger] leads_to(f, prods, a, s, x, t)
        implies leads_to(f, prods, b, s, x, t) by {
        let (v, c) = choose|v: Seq<(GrammarItemKey, Seq<TokenView>)>, c: Seq<(GrammarItemKey, Seq<TokenView>)>|
            #[trigger] goto_closure(f, prods, v, x, c) && same_keys(v, a[s]@.items) && kernel_pairs(c) == kernel_pairs(a[t]@.items);
        assert(same_keys(a[s]@.items, b[s]@.items));
        assert(same_keys(v, b[s]@.items));
        assert(kernel_pairs(b[t]@.items) == kernel_pairs(a[t]@.items));
    }
    assert forall|s: int, k: int| 0 <= s < b.len() && 0 <= k < b[s]@.shifts.len() implies leads_to(f, prods, b, s,
        GrammarSymbolView::Terminal((#[trigger] b[s]@.shifts[k]).0), b[s]@.shifts[k].1 as int) by {
        if s < a.len() {
            assert(same_keys(a[s]@.items, b[s]@.items));
            assert(b[s]@.shifts.contains(b[s]@.shifts[k]));
            assert(a[s]@.shifts.contains(b[s]@.shifts[k]));
            let kk = choose|kk: int| 0 <= kk < a[s]@.shifts.len() && a[s]@.shifts[kk] == b[s]@.shifts[k];
            assert(leads_to(f, prods, a, s, GrammarSymbolView::Terminal(a[s]@.shifts[kk].0), a[s]@.shifts[kk].1 as int));
        }
    }
    assert forall|s: int, k: int| 0 <= s < b.len() && 0 <= k < b[s]@.gotos.len() implies leads_to(f, prods, b, s,
        GrammarSymbolView::NonTerminal((#[trigger] b[s]@.gotos[k]).0), b[s]@.gotos[k].1 as int) by {
        if s < a.len() {
            assert(same_keys(a[s]@.items, b[s]@.items));
            assert(b[s]@.gotos.contains(b[s]@.gotos[k]));
            assert(a[s]@.gotos.contains(b[s]@.gotos[k]));
            let kk = choose|kk: int| 0 <= kk < a[s]@.gotos.len() && a[s]@.gotos[kk] == b[s]@.gotos[k];
            assert(leads_to(f, prods, a, s, GrammarSymbolView::NonTerminal(a[s]@.gotos[kk].0), a[s]@.gotos[kk].1 as int));
        }
    }
}

/// Transitions stay matched where the `s`th state, keeping its items, gains
/// shifts or gotos on like symbols to a state that going on `x` leads to.
pub proof fn lemma_transitions_extended(
    f: Seq<(Seq<TokenView>, bool)>,
    prods: Seq<ProductionView>,
    a: Seq<ParserState>,
    b: Seq<ParserState>,
    s: int,
    x: GrammarSymbolView,
    t: int,
)
    requires
        transitions_match(f, prods, a),
        0 <= s < a.len(),
        a.len() == b.len(),
        forall|k: int| 0 <= k < a.len() && k != s ==> #[trigger] b[k] == a[k],
        b[s]@.items == a[s]@.items,
        leads_to(f, prods, a, s, x, t),
        forall|m: (TokenView, u32)| #[trigger] b[s]@.shifts.contains(m) ==> a[s]@.shifts.contains(m)
            || (m.1 == t && same_symbol(x, GrammarSymbolView::Terminal(m.0))),
        forall|m: (u32, u32)| #[trigger] b[s]@.gotos.contains(m) ==> a[s]@.gotos.contains(m)
            || (m.1 == t && same_symbol(x, GrammarSymbolView::NonTerminal(m.0))),
    ensures
        transitions_match(f, prods, b),
{
    assert forall|ss: int, y: GrammarSymbolView, tt: int| 0 <= ss < a.len() && #[trigger] leads_to(f, prods, a, ss, y, tt)
        implies leads_to(f, prods, b, ss, y, tt) by {
        let (v, c) = choose|v: Seq<(GrammarItemKey, Seq<TokenView>)>, c: Seq<(GrammarItemKey, Seq<TokenView>)>|
            #[trigger] goto_closure(f, prods, v, y, c) && same_keys(v, a[ss]@.items) && kernel_pairs(c) == kernel_pairs(a[tt]@.items);
        assert(b[ss]@.items == a[ss]@.items);
        assert(b[tt]@.items == a[tt]@.items);
    }
    assert forall|ss: int, k: int| 0 <= ss < b.len() && 0 <= k < b[ss]@.shifts.len() implies leads_to(f, prods, b, ss,
        GrammarSymbolView::Terminal((#[trigger] b[ss]@.shifts[k]).0), b[ss]@.shifts[k].1 as int) by {
        let m = b[ss]@.shifts[k];
        if ss != s {
            assert(leads_to(f, prods, a, ss, GrammarSymbolView::Terminal(a[ss]@.shifts[k].0), a[ss]@.shifts[k].1 as int));
        } else {
            assert(b[s]@.shifts.contains(m));
            if a[s]@.shifts.contains(m) {
                let kk = choose|kk: int| 0 <= kk < a[s]@.shifts.len() && a[s]@.shifts[kk] == m;
                assert(leads_to(f, prods, a, s, GrammarSymbolView::Terminal(a[s]@.shifts[kk].0), a[s]@.shifts[kk].1 as int));
            } else {
                lemma_leads_same_symbol(f, prods, a, s, x, GrammarSymbolView::Terminal(m.0), t);
            }
        }
    }
    assert forall|ss: int, k: int| 0 <= ss < b.len() && 0 <= k < b[ss]@.gotos.len() implies leads_to(f, prods, b, ss,
        GrammarSymbolView::NonTerminal((#[trigger] b[ss]@.gotos[k]).0), b[ss]@.gotos[k].1 as int) by {
        let m = b[ss]@.gotos[k];
        if ss != s {
            assert(leads_to(f, prods, a, ss, GrammarSymbolView::NonTerminal(a[ss]@.gotos[k].0), a[ss]@.gotos[k].1 as int));
        } else {
            assert(b[s]@.gotos.contains(m));
            if a[s]@.gotos.contains(m) {
                let kk = choose|kk: int| 0 <= kk < a[s]@.gotos.len() && a[s]@.gotos[kk] == m;
                assert(leads_to(f, prods, a, s, GrammarSymbolView::NonTerminal(a[s]@.gotos[kk].0), a[s]@.gotos[kk].1 as int));
            } else {
                lemma_leads_same_symbol(f, prods, a, s, x, GrammarSymbolView::NonTerminal(m.0), t);
            }
        }
    }
}

/// Adding a shift on `tok` to the state `t` that going on it leads to keeps
/// the transitions matched.
proof fn lemma_shift_added(
    f: Seq<(Seq<TokenView>, bool)>,
    prods: Seq<ProductionView>,
    a: Seq<ParserState>,
    b: Seq<ParserState>,
    s: int,
    tok: TokenView,
    t: u32,
)
    requires
        transitions_match(f, prods, a),
        0 <= s < a.len(),
        a.len() == b.len(),
        forall|k: int| 0 <= k < a.len() && k != s ==> #[trigger] b[k] == a[k],
        b[s]@.items == a[s]@.items,
        b[s]@.gotos == a[s]@.gotos,
        leads_to(f, prods, a, s, GrammarSymbolView::Terminal(tok), t as int),
        crate::state::shifts_token(a[s]@, tok) ==> exists|k: int| 0 <= k < a[s]@.shifts.len() && same_token(a[s]@.shifts[k].0, tok)
            && b[s]@.shifts == a[s]@.shifts.update(k, (a[s]@.shifts[k].0, t)),
        !crate::state::shifts_token(a[s]@, tok) ==> exists|p: int| 0 <= p <= a[s]@.shifts.len()
            && b[s]@.shifts == a[s]@.shifts.insert(p, (tok, t)),
    ensures
        transitions_match(f, prods, b),
{
    let x = GrammarSymbolView::Terminal(tok);
    let old = a[s]@.shifts;
    let new = b[s]@.shifts;
    assert forall|m: (TokenView, u32)| #[trigger] new.contains(m) implies old.contains(m)
        || (m.1 == t && same_symbol(x, GrammarSymbolView::Terminal(m.0))) by {
        let i = choose|i: int| 0 <= i < new.len() && new[i] == m;
        if crate::state::shifts_token(a[s]@, tok) {
            let k = choose|k: int| 0 <= k < old.len() && same_token(old[k].0, tok) && new == old.update(k, (old[k].0, t));
            if i != k {
                assert(old[i] == m);
            }
        } else {
            let p = choose|p: int| 0 <= p <= old.len() && new == old.insert(p, (tok, t));
            if i < p {
                assert(old[i] == m);
            } else if i > p {
                assert(old[i - 1] == m);
            }
        }
    }
    lemma_transitions_extended(f, prods, a, b, s, x, t as int);
}

/// Adding a goto on `nt` to the state `t` that going on it leads to keeps
/// the transitions matched.
proof fn lemma_goto_added(
    f: Seq<(Seq<TokenView>, bool)>,
    prods: Seq<ProductionView>,
    a: Seq<ParserState>,
    b: Seq<ParserState>,
    s: int,
    nt: u32,
    t: u32,
)
    requires
        transitions_match(f, prods, a),
        0 <= s < a.len(),
        a.len() == b.len(),
        forall|k: int| 0 <= k < a.len() && k != s ==> #[trigger] b[k] == a[k],
        b[s]@.items == a[s]@.items,
        b[s]@.shifts == a[s]@.shifts,
        b[s]@.gotos == a[s]@.gotos.push((nt, t)),
        leads_to(f, prods, a, s, GrammarSymbolView::NonTerminal(nt), t as int),
    ensures
        transitions_match(f, prods, b),
{
    let x = GrammarSymbolView::NonTerminal(nt);
    assert forall|m: (u32, u32)| #[trigger] b[s]@.gotos.contains(m) implies a[s]@.gotos.contains(m)
        || (m.1 == t && same_symbol(x, GrammarSymbolView::NonTerminal(m.0))) by {
        let i = choose|i: int| 0 <= i < b[s]@.gotos.len() && b[s]@.gotos[i] == m;
        if i < a[s]@.gotos.len() {
            assert(a[s]@.gotos[i] == m);
        }
    }
    lemma_transitions_extended(f, prods, a, b, s, x, t as int);
}

/// The states `sts` of the parser of `specification` are sound, reached from
/// the start, have distinct kernels and are as many as can be numbered, the
/// first holds the closure of the start item, and going from one of them on
/// a symbol after a dot needs a state whose kernel, which is not empty, none
/// of them has.
pub open spec fn numbering_exhausted(specification: &Specification, sts: Seq<ParserState>) -> bool {
    let prods = specification.prods();
    let f = specification.firsts_table();
    &&& sts.len() == u32::MAX
    &&& kernels_distinct(sts)
    &&& states_sound(prods, specification.start(), specification.error_nt(), la_universe(prods), specification.non_terminals(), sts)
    &&& states_reached(f, prods, specification.start_kernel(), sts)
    &&& exists|c: Seq<(GrammarItemKey, Seq<TokenView>)>| #[trigger] least_closure(f, prods, specification.start_kernel(), c)
        && includes(sts[0]@.items, c)
    &&& exists|s: int, x: GrammarSymbolView, v: Seq<(GrammarItemKey, Seq<TokenView>)>, c: Seq<(GrammarItemKey, Seq<TokenView>)>|
        #![trigger goto_closure(f, prods, v, x, c), sts[s]]
        0 <= s < sts.len() && same_keys(v, sts[s]@.items) && goto_closure(f, prods, v, x, c)
            && kernel_pairs(c).len() > 0 && kernel_unmatched(sts, c)
}

/// The sum of the numbers `xs`.
pub open spec fn nat_sum(xs: Seq<nat>) -> nat
    decreases xs.len(),
{
    if xs.len() == 0 {
        0
    } else {
        nat_sum(xs.drop_last()) + xs.last()
    }
}

/// `n`, stopping at the largest `usize`.
pub open spec fn capped(n: nat) -> nat {
    if n > usize::MAX {
        usize::MAX as nat
    } else {
        n
    }
}

/// How many shift/reduce conflicts each of the states `sts` records.
pub open spec fn sr_counts(sts: Seq<ParserStateView>) -> Seq<nat> {
    sts.map_values(|st: ParserStateView| st.shift_reduce_conflicts.len())
}

/// How many reduce/reduce conflicts each of the states `sts` records.
pub open spec fn rr_counts(sts: Seq<ParserStateView>) -> Seq<nat> {
    sts.map_values(|st: ParserStateView| st.reduce_reduce_conflicts.len())
}

/// Adding a state adds its recorded conflicts to the sums.
proof fn lemma_counts_push(xs: Seq<ParserStateView>, x: ParserStateView)
    ensures
        nat_sum(sr_counts(xs.push(x))) == nat_sum(sr_counts(xs)) + x.shift_reduce_conflicts.len(),
        nat_sum(rr_counts(xs.push(x))) == nat_sum(rr_counts(xs)) + x.reduce_reduce_conflicts.len(),
{
    assert(sr_counts(xs.push(x)).drop_last() =~= sr_counts(xs));
    assert(rr_counts(xs.push(x)).drop_last() =~= rr_counts(xs));
}

/// What building the parser of `specification` gives: a well formed
/// parser whose states are reached from the closure of the start item and
/// have distinct kernels, each free of conflicts; or the refusal of a
/// specification with undefined symbols (first) or errors, or of one whose
/// parser needs more states than can be numbered.
pub open spec fn grammar_built(specification: Specification, r: Result<Grammar, GrammarError>) -> bool {
    &&& match r {
        Ok(g) => {
            &&& g.wf()
            &&& g.states().len() >= 1
            &&& g.spec_of() == specification
            &&& forall|t: int| 0 <= t < g.states().len() ==> {
                &&& (#[trigger] g.states()[t]).ident == t
                &&& state_describable(specification.prods(), specification.non_terminals(), g.states()[t], g.states().len())
                &&& crate::state::free_of_shift_reduce_conflicts(g.states()[t])
                &&& crate::state::free_of_reduce_reduce_conflicts(g.states()[t])
            }
            &&& forall|t: int| 0 <= t < g.parser_states_seq().len() ==> (#[trigger] g.parser_states_seq()[t]).wf()
            &&& kernels_distinct(g.parser_states_seq())
            &&& states_reached(specification.firsts_table(), specification.prods(), specification.start_kernel(),
                g.parser_states_seq())
            &&& transitions_match(specification.firsts_table(), specification.prods(), g.parser_states_seq())
            &&& g.sr_conflicts() == capped(nat_sum(sr_counts(g.states())))
            &&& g.rr_conflicts() == capped(nat_sum(rr_counts(g.states())))
        },
        Err(e) => {
            ||| (e == GrammarError::UndefinedSymbols(
                undefined_count(specification.prods(), specification.start(), specification.error_nt(), specification.non_terminals()) as u32)
                && undefined_count(specification.prods(), specification.start(), specification.error_nt(), specification.non_terminals()) > 0)
            ||| (e == GrammarError::TooManyErrors(specification.errors()) && specification.errors() > 0
                && undefined_count(specification.prods(), specification.start(), specification.error_nt(), specification.non_terminals()) == 0)
            ||| (e == GrammarError::TooManyStates && specification.errors() == 0
                && undefined_count(specification.prods(), specification.start(), specification.error_nt(), specification.non_terminals()) == 0
                && exists|sts: Seq<ParserState>| #[trigger] numbering_exhausted(&specification, sts))
        },
    }
    &&& r is Ok ==> specification.errors() == 0
        && undefined_count(specification.prods(), specification.start(), specification.error_nt(), specification.non_terminals()) == 0
}

/// A state's recorded conflicts count in full towards a sum of counts.
proof fn lemma_count_in_sum(xs: Seq<nat>, t: int)
    requires
        0 <= t < xs.len(),
    ensures
        xs[t] <= nat_sum(xs),
    decreases xs.len(),
{
    if t < xs.len() - 1 {
        assert(xs.drop_last()[t] == xs[t]);
        lemma_count_in_sum(xs.drop_last(), t);
    }
}

/// In the parser of a specification, the count of shift/reduce conflicts
/// that only a default resolved is the sum, over its states, of the
/// conflicts each state records, stopping at the largest `usize`; so is the
/// count of reduce/reduce conflicts. Every conflict that a state records
/// counts: two states that each record two count four, and no state's
/// count exceeds the parser's unless the parser's count has stopped at the
/// largest `usize`.
pub proof fn law_conflict_counts_add_up(specification: Specification, g: Grammar)
    requires
        grammar_built(specification, Ok(g)),
    ensures
        g.sr_conflicts() == capped(nat_sum(sr_counts(g.states()))),
        g.rr_conflicts() == capped(nat_sum(rr_counts(g.states()))),
        forall|t: int| 0 <= t < g.states().len() ==> (#[trigger] g.states()[t]).shift_reduce_conflicts.len() <= g.sr_conflicts()
            || g.sr_conflicts() == usize::MAX,
        forall|t: int| 0 <= t < g.states().len() ==> (#[trigger] g.states()[t]).reduce_reduce_conflicts.len() <= g.rr_conflicts()
            || g.rr_conflicts() == usize::MAX,
{
    assert forall|t: int| 0 <= t < g.states().len() implies (#[trigger] g.states()[t]).shift_reduce_conflicts.len() <= g.sr_conflicts()
        || g.sr_conflicts() == usize::MAX by {
        lemma_count_in_sum(sr_counts(g.states()), t);
    }
    assert forall|t: int| 0 <= t < g.states().len() implies (#[trigger] g.states()[t]).reduce_reduce_conflicts.len() <= g.rr_conflicts()
        || g.rr_conflicts() == usize::MAX by {
        lemma_count_in_sum(rr_counts(g.states()), t);
    }
}

/// The states of the LALR(1) parser of a specification.
pub struct Grammar {
    specification: Specification,
    parser_states: Vec<ParserState>,
    unresolved_sr_conflicts: usize,
    unresolved_rr_conflicts: usize,
}

impl Grammar {
    /// Builds the states of the parser of `specification`, before their
    /// conflicts are resolved: the first state holds the closure of the
    /// start item; each state, when first processed, shifts each token and
    /// goes on each non terminal that stands after a dot in it to the state
    /// whose kernel is that of the closure of its goto kernel, made anew
    /// where no state has that kernel, and otherwise merged into it; states
    /// that gain look ahead tokens are processed again. Nothing comes back
    /// where more states would be needed than can be numbered.
    #[verifier::rlimit(80)]
    pub fn build_states(specification: &Specification) -> (r: Option<Vec<ParserState>>)
        requires
            specification.wf(),
            specification.prods().len() > 0,
        ensures
            match r {
                Some(states) => {
                    &&& states@.len() >= 1
                    &&& states_sound(specification.prods(), specification.start(), specification.error_nt(),
                        la_universe(specification.prods()), specification.non_terminals(), states@)
                    &&& forall|t: int| 0 <= t < states@.len() ==> (#[trigger] states@[t])@.processed_state == ProcessedState::Processed
                    &&& kernels_distinct(states@)
                    &&& states_reached(specification.firsts_table(), specification.prods(), specification.start_kernel(), states@)
                    &&& transitions_match(specification.firsts_table(), specification.prods(), states@)
                    &&& exists|c: Seq<(GrammarItemKey, Seq<TokenView>)>| #[trigger] least_closure(specification.firsts_table(),
                        specification.prods(), specification.start_kernel(), c) && includes(states@[0]@.items, c)
                },
                None => exists|sts: Seq<ParserState>| #[trigger] numbering_exhausted(specification, sts),
            },
    {
        let ghost prods = specification.prods();
        let ghost u = la_universe(prods);
        let ghost f = specification.firsts_table();
        let start_key = specification.productions[0].start_item(specification.start_non_terminal, specification.error_non_terminal);
        let mut start_look_ahead_set = TokenSet::new();
        crate::firsts::add_token(&mut start_look_ahead_set, &crate::terminal::Token::EndToken);
        let ghost la0 = start_look_ahead_set@;
        let kernel = vec![(start_key, start_look_ahead_set)];
        proof {
            assert(prods[0] == specification.productions@[0]@);
            assert(has_token(u, TokenView::EndToken)) by {
                assert(u[u.len() - 1] == TokenView::EndToken);
                assert(same_token(TokenView::EndToken, TokenView::EndToken));
            }
            let kv = items_view(kernel@);
            assert(kv[0] == (start_key, la0));
            assert(keys_valid(prods, kv, specification.start(), specification.error_nt()));
            assert(la_within(kv, u)) by {
                assert forall|j: int, x: TokenView| 0 <= j < kv.len() && #[trigger] has_token(kv[j].1, x) implies has_token(u, x) by {
                    assert(same_token(TokenView::EndToken, x));
                    crate::firsts::lemma_has_same(u, TokenView::EndToken, x);
                }
            }
            assert(items_sound(kernel@));
        }
        let ghost kernel_v = items_view(kernel@);
        let start_items = specification.closure(kernel);
        let ghost c0 = items_view(start_items@);
        proof {
            // the start kernel as built is the start kernel of the specification, up to like tokens
            let k0 = specification.start_kernel();
            assert(includes(kernel_v, k0) && includes(k0, kernel_v)) by {
                assert(kernel_v[0].0 == k0[0].0);
                assert forall|x: TokenView| #[trigger] has_token(k0[0].1, x) <==> has_token(kernel_v[0].1, x) by {
                    if has_token(k0[0].1, x) {
                        assert(k0[0].1[0] == TokenView::EndToken);
                    }
                    if has_token(kernel_v[0].1, x) {
                        assert(same_token(TokenView::EndToken, x));
                        assert(k0[0].1[0] == TokenView::EndToken);
                    }
                }
                assert(item_in(kernel_v, k0[0].0, k0[0].1)) by {
                    assert(present(kernel_v, k0[0].0.production, k0[0].0.dot));
                    assert forall|x: TokenView| #[trigger] has_token(k0[0].1, x) implies la_has(kernel_v, k0[0].0.production, k0[0].0.dot, x) by {
                        assert(has_token(kernel_v[0].1, x));
                    }
                }
                assert(item_in(k0, kernel_v[0].0, kernel_v[0].1)) by {
                    assert(present(k0, kernel_v[0].0.production, kernel_v[0].0.dot));
                    assert forall|x: TokenView| #[trigger] has_token(kernel_v[0].1, x) implies la_has(k0, kernel_v[0].0.production, kernel_v[0].0.dot, x) by {
                        assert(has_token(k0[0].1, x));
                    }
                }
            }
            lemma_includes_trans(c0, kernel_v, k0);
            assert forall|g: Seq<(GrammarItemKey, Seq<TokenView>)>| includes(g, k0) && #[trigger] items_closed(f, prods, g)
                implies includes(g, c0) by {
                lemma_includes_trans(g, k0, kernel_v);
            }
            assert(least_closure(f, prods, k0, c0));
        }
        let mut states: Vec<ParserState> = Vec::new();
        states.push(ParserState::new(0, start_items));
        proof {
            lemma_includes_refl(c0);
            assert(same_keys(c0, states@[0]@.items));
            assert(states_reached(f, prods, specification.start_kernel(), states@));
            assert(transitions_match(f, prods, states@));
            assert(states_sound(prods, specification.start(), specification.error_nt(), u, specification.non_terminals(), states@)) by {
                assert forall|ss: int| 0 <= ss < states@.len() implies state_sound(prods, specification.start(), specification.error_nt(), u, specification.non_terminals(), #[trigger] states@[ss], ss, states@.len()) by {
                    assert(ss == 0);
                }
            }
        }
        loop
            invariant
                specification.wf(),
                prods == specification.prods(),
                u == la_universe(prods),
                f == specification.firsts_table(),
                least_closure(f, prods, specification.start_kernel(), c0),
                states_sound(prods, specification.start(), specification.error_nt(), u, specification.non_terminals(), states@),
                1 <= states@.len() <= u32::MAX,
                includes(states@[0]@.items, c0),
                kernels_distinct(states@),
                states_reached(f, prods, specification.start_kernel(), states@),
                transitions_match(f, prods, states@),
            ensures
                states_sound(prods, specification.start(), specification.error_nt(), u, specification.non_terminals(), states@),
                1 <= states@.len() <= u32::MAX,
                includes(states@[0]@.items, c0),
                kernels_distinct(states@),
                states_reached(f, prods, specification.start_kernel(), states@),
                transitions_match(f, prods, states@),
                forall|t: int| 0 <= t < states@.len() ==> (#[trigger] states@[t])@.processed_state == ProcessedState::Processed,
            decreases u32::MAX - states@.len(), states_la(states_view(states@), u), unprocessed(states_view(states@)),
        {
            let mut s: usize = 0;
            while s < states.len() && states[s].is_processed()
                invariant
                    s <= states@.len(),
                    forall|t: int| 0 <= t < s ==> (#[trigger] states@[t])@.processed_state == ProcessedState::Processed,
                decreases states@.len() - s,
            {
                s = s + 1;
            }
            if s == states.len() {
                break;
            }
            let ghost n0 = states@.len();
            let ghost b0 = states_la(states_view(states@), u);
            let ghost c_0 = unprocessed(states_view(states@));
            let ghost before_mark = states@[s as int]@;
            let ghost st_unmarked = states@;
            proof {
                assert(states@[s as int].wf());
            }
            let first_time = states[s].is_unprocessed();
            states[s].mark_as_processed();
            proof {
                let sv = states_view(states@);
                assert(sv =~= states_view(st_unmarked).update(s as int, states@[s as int]@));
                lemma_states_update(states_view(st_unmarked), s as int, states@[s as int]@, u);
                assert(state_grown(before_mark, states@[s as int]@)) by {
                    assert forall|j: int, x: TokenView| 0 <= j < before_mark.items.len() && #[trigger] has_token(before_mark.items[j].1, x)
                        implies has_token(states@[s as int]@.items[j].1, x) by {}
                }
                if s == 0 {
                    lemma_grown_includes(before_mark, states@[0]@);
                    lemma_includes_trans(states@[0]@.items, before_mark.items, c0);
                }
                assert(states_sound(prods, specification.start(), specification.error_nt(), u, specification.non_terminals(), states@)) by {
                    assert forall|ss: int| 0 <= ss < states@.len() implies state_sound(prods, specification.start(), specification.error_nt(), u, specification.non_terminals(), #[trigger] states@[ss], ss, states@.len()) by {
                        if ss != s {
                            assert(states@[ss] == st_unmarked[ss]);
                        }
                    }
                }
                assert forall|k: int| 0 <= k < st_unmarked.len() implies same_keys(st_unmarked[k]@.items, #[trigger] states@[k]@.items) by {
                    if k != s {
                        assert(states@[k] == st_unmarked[k]);
                    }
                }
                lemma_reached_kept(f, prods, specification.start_kernel(), st_unmarked, states@);
                assert forall|k: int| 0 <= k < st_unmarked.len() implies same_keys(st_unmarked[k]@.items, #[trigger] states@[k]@.items)
                    && (forall|m: (TokenView, u32)| states@[k]@.shifts.contains(m) ==> st_unmarked[k]@.shifts.contains(m))
                    && (forall|m: (u32, u32)| states@[k]@.gotos.contains(m) ==> st_unmarked[k]@.gotos.contains(m)) by {
                    if k != s {
                        assert(states@[k] == st_unmarked[k]);
                    }
                }
                lemma_transitions_kept(f, prods, st_unmarked, states@);
            }
            let keys = copy_items(states[s].grammar_items());
            let ghost kv = items_view(keys@);
            proof {
                assert(kv == states@[s as int]@.items);
            }
            let mut already_done: Vec<GrammarSymbol> = Vec::new();
            let mut i: usize = 0;
            while i < keys.len()
                invariant
                    specification.wf(),
                    prods == specification.prods(),
                    u == la_universe(prods),
                    f == specification.firsts_table(),
                    states_sound(prods, specification.start(), specification.error_nt(), u, specification.non_terminals(), states@),
                    n0 <= states@.len() <= u32::MAX,
                    s < n0,
                    i <= keys@.len(),
                    kv == items_view(keys@),
                    keys_valid(prods, kv, specification.start(), specification.error_nt()),
                    includes(states@[0]@.items, c0),
                    least_closure(f, prods, specification.start_kernel(), c0),
                    kernels_distinct(states@),
                    states_reached(f, prods, specification.start_kernel(), states@),
                    transitions_match(f, prods, states@),
                    same_keys(kv, states@[s as int]@.items),
                    states@.len() == n0 ==> build_measure_lt(
                        n0, states_la(states_view(states@), u), unprocessed(states_view(states@)),
                        n0, b0, c_0),
                decreases keys@.len() - i,
            {
                let key = keys[i].0;
                proof {
                    assert(kv[i as int].0 == key);
                }
                if !key.is_reducible() {
                    let symbol_x = specification.next_symbol(key);
                    if !symbol_listed(&already_done, &symbol_x) {
                        already_done.push(symbol_x.snapshot());
                        let ghost st_before = states@;
                        let ghost b1 = states_la(states_view(states@), u);
                        let ghost c1 = unprocessed(states_view(states@));
                        match specification.goto_on(&mut states, s, &symbol_x) {
                            None => {
                                proof {
                                    let c = choose|c: Seq<(GrammarItemKey, Seq<TokenView>)>| #[trigger] least_closure(f, prods,
                                        goto_kernel(prods, st_before[s as int]@.items, symbol_x@), c)
                                        && goto_outcome(st_before, states@, c, None);
                                    assert(states@ == st_before);
                                    let v = states@[s as int]@.items;
                                    assert(v[i as int].0 == key);
                                    lemma_goto_closure_of(f, prods, v, i as int, symbol_x@, c);
                                    assert(same_keys(v, states@[s as int]@.items));
                                    assert(least_closure(f, prods, specification.start_kernel(), c0));
                                    assert(numbering_exhausted(specification, states@));
                                }
                                return None;
                            },
                            Some(goto_state) => {
                                proof {
                                    assert(state_grown(st_before[0]@, states@[0]@));
                                    lemma_grown_includes(st_before[0]@, states@[0]@);
                                    lemma_includes_trans(states@[0]@.items, st_before[0]@.items, c0);
                                    assert(states@[s as int].wf());
                                    assert(st_before[s as int]@.items[i as int].0 == key);
                                    lemma_goto_step_reached(f, prods, specification.start_kernel(), st_before, states@, s as int, i as int,
                                        symbol_x@, goto_state);
                                }
                                if first_time {
                                    let ghost st_mid = states@;
                                    specification.add_transition(&mut states, s, &symbol_x, goto_state);
                                    proof {
                                        let sv = states_view(states@);
                                        assert(sv =~= states_view(st_mid).update(s as int, states@[s as int]@));
                                        lemma_states_update(states_view(st_mid), s as int, states@[s as int]@, u);
                                        assert(states@[0]@.items == st_mid[0]@.items);
                                        assert forall|k: int| 0 <= k < st_mid.len() implies same_keys(st_mid[k]@.items, #[trigger] states@[k]@.items) by {
                                            assert(states@[k]@.items == st_mid[k]@.items);
                                        }
                                        lemma_reached_kept(f, prods, specification.start_kernel(), st_mid, states@);
                                    }
                                }
                            },
                        }
                    }
                }
                i = i + 1;
            }
        }
        Some(states)
    }

    pub closed spec fn states(&self) -> Seq<ParserStateView> {
        states_view(self.parser_states@)
    }

    /// The specification is well formed, and each state is well formed,
    /// knows its place, can be described, and is free of conflicts.
    pub closed spec fn wf(&self) -> bool {
        &&& self.specification.wf()
        &&& self.parser_states@.len() >= 1
        &&& forall|t: int| 0 <= t < self.parser_states@.len() ==> {
            &&& (#[trigger] self.parser_states@[t]).wf()
            &&& self.parser_states@[t]@.ident == t
            &&& state_describable(self.specification.prods(), self.specification.non_terminals(), self.parser_states@[t]@,
                self.parser_states@.len())
            &&& crate::state::free_of_shift_reduce_conflicts(self.parser_states@[t]@)
            &&& crate::state::free_of_reduce_reduce_conflicts(self.parser_states@[t]@)
        }
    }

    /// What a well formed parser gives.
    pub proof fn lemma_wf(&self)
        requires
            self.wf(),
        ensures
            self.spec_of().wf(),
            self.spec_of().prods_wf(),
            self.parser_states_seq().len() >= 1,
            states_view(self.parser_states_seq()) == self.states(),
            forall|t: int| 0 <= t < self.parser_states_seq().len() ==> {
                &&& (#[trigger] self.parser_states_seq()[t]).wf()
                &&& self.parser_states_seq()[t]@.ident == t
                &&& state_describable(self.spec_of().prods(), self.spec_of().non_terminals(), self.parser_states_seq()[t]@,
                    self.parser_states_seq().len())
            },
    {
    }

    pub closed spec fn spec_of(&self) -> Specification {
        self.specification
    }

    pub closed spec fn parser_states_seq(&self) -> Seq<ParserState> {
        self.parser_states@
    }

    /// The specification the parser was built from.
    pub fn specification(&self) -> (r: &Specification)
        ensures
            *r == self.spec_of(),
    {
        &self.specification
    }

    pub closed spec fn sr_conflicts(&self) -> usize {
        self.unresolved_sr_conflicts
    }

    pub closed spec fn rr_conflicts(&self) -> usize {
        self.unresolved_rr_conflicts
    }

    /// The parser of `specification`: its states are built (see
    /// [`Grammar::build_states`]) and then the conflicts of each state are
    /// resolved, those between shifting and reducing first. The counts of
    /// conflicts that only a default resolved add up, stopping at the
    /// largest `usize`.
    #[verifier::rlimit(40)]
    pub fn try_from(specification: Specification) -> (r: Result<Grammar, GrammarError>)
        requires
            specification.wf(),
            specification.prods().len() > 0,
        ensures
            grammar_built(specification, r),
    {
        let undefined_symbols = specification.undefined_symbols();
        if undefined_symbols > 0 {
            return Err(GrammarError::UndefinedSymbols(undefined_symbols));
        }
        if specification.error_count > 0 {
            return Err(GrammarError::TooManyErrors(specification.error_count));
        }
        let mut states = match Self::build_states(&specification) {
            Some(states) => states,
            None => {
                return Err(GrammarError::TooManyStates);
            },
        };
        let ghost n = states@.len();
        let ghost built = states@;
        proof {
            assert forall|k: int| 0 <= k < n implies (#[trigger] states@[k]).wf() && states@[k]@.ident == k
                && state_describable(specification.prods(), specification.non_terminals(), states@[k]@, n) by {
                assert(state_sound(specification.prods(), specification.start(), specification.error_nt(),
                    la_universe(specification.prods()), specification.non_terminals(), states@[k], k, n));
            }
            assert forall|k: int| 0 <= k < n implies (#[trigger] states@[k])@.shift_reduce_conflicts.len() == 0
                && states@[k]@.reduce_reduce_conflicts.len() == 0 by {
                assert(state_sound(specification.prods(), specification.start(), specification.error_nt(),
                    la_universe(specification.prods()), specification.non_terminals(), states@[k], k, n));
            }
        }
        let mut sr: usize = 0;
        let mut rr: usize = 0;
        let mut t: usize = 0;
        while t < states.len()
            invariant
                t <= states@.len(),
                states@.len() == n,
                forall|k: int| 0 <= k < n ==> (#[trigger] states@[k]).wf() && states@[k]@.ident == k
                    && state_describable(specification.prods(), specification.non_terminals(), states@[k]@, n),
                specification.wf(),
                forall|k: int| 0 <= k < t ==> crate::state::free_of_shift_reduce_conflicts((#[trigger] states@[k])@)
                    && crate::state::free_of_reduce_reduce_conflicts(states@[k]@),
                built.len() == n,
                sr == capped(nat_sum(sr_counts(states_view(states@).take(t as int)))),
                rr == capped(nat_sum(rr_counts(states_view(states@).take(t as int)))),
                forall|k: int| t <= k < n ==> (#[trigger] states@[k])@.shift_reduce_conflicts.len() == 0
                    && states@[k]@.reduce_reduce_conflicts.len() == 0,
                forall|k: int| 0 <= k < n ==> same_keys(built[k]@.items, #[trigger] states@[k]@.items)
                    && (forall|m: (TokenView, u32)| states@[k]@.shifts.contains(m) ==> built[k]@.shifts.contains(m))
                    && (forall|m: (u32, u32)| states@[k]@.gotos.contains(m) ==> built[k]@.gotos.contains(m)),
            decreases n - t,
        {
            let ghost before = states@;
            let a = states[t].resolve_shift_reduce_conflicts();
            let ghost mid = states@[t as int]@;
            let b = states[t].resolve_reduce_reduce_conflicts();
            proof {
                let s0 = before[t as int]@;
                let s2 = states@[t as int]@;
                lemma_trimming_keeps_sr_freedom(mid, s2);
                assert(state_describable(specification.prods(), specification.non_terminals(), s0, n));
                assert(targets_below(s2, n)) by {
                    assert(targets_below(s0, n));
                    assert forall|k: int| 0 <= k < s2.shifts.len() implies (#[trigger] s2.shifts[k]).1 < n by {
                        assert(mid.shifts.contains(s2.shifts[k]));
                        assert(s0.shifts.contains(s2.shifts[k]));
                        let kk = choose|kk: int| 0 <= kk < s0.shifts.len() && s0.shifts[kk] == s2.shifts[k];
                    }
                }
                assert(state_describable(specification.prods(), specification.non_terminals(), s2, n)) by {
                    assert forall|j: int| 0 <= j < s2.items.len() implies (#[trigger] s2.items[j]).0.production < specification.prods().len() by {
                        assert(s2.items[j].0 == mid.items[j].0);
                        assert(mid.items[j].0 == s0.items[j].0);
                    }
                    assert forall|m: int| 0 <= m < s2.shift_reduce_conflicts.len() implies (#[trigger] s2.shift_reduce_conflicts[m]).2.production
                        < specification.prods().len() by {
                        if m < s0.shift_reduce_conflicts.len() {
                            assert(s2.shift_reduce_conflicts[m] == s0.shift_reduce_conflicts[m]) by {
                                assert(mid.shift_reduce_conflicts.take(s0.shift_reduce_conflicts.len() as int)[m] == mid.shift_reduce_conflicts[m]);
                            }
                        } else {
                            assert(crate::state::is_unresolved_entry(s0, mid.shift_reduce_conflicts[m]));
                            let (a, b) = choose|a: int, b: int| #[trigger] crate::state::unresolved_sr_conflict(s0, a, b)
                                && mid.shift_reduce_conflicts[m] == crate::state::sr_entry(s0, a, b);
                            assert(crate::state::sr_conflict(s0, a, b));
                            assert(s0.items[b].0.production < specification.prods().len());
                        }
                    }
                    lemma_rr_keys_after(s0, mid, s2);
                    assert(s2.gotos == s0.gotos);
                    assert forall|k: int| 0 <= k < s2.gotos.len() implies (#[trigger] s2.gotos[k]).0 < specification.non_terminals() by {
                        assert(s2.gotos[k] == s0.gotos[k]);
                    }
                    assert(targets_below(s2, n));
                }
                assert forall|k: int| 0 <= k < n implies (#[trigger] states@[k]).wf() && states@[k]@.ident == k
                    && state_describable(specification.prods(), specification.non_terminals(), states@[k]@, n) by {
                    if k != t {
                        assert(states@[k] == before[k]);
                    }
                }
                assert forall|k: int| 0 <= k < n implies same_keys(built[k]@.items, #[trigger] states@[k]@.items)
                    && (forall|m: (TokenView, u32)| states@[k]@.shifts.contains(m) ==> built[k]@.shifts.contains(m))
                    && (forall|m: (u32, u32)| states@[k]@.gotos.contains(m) ==> built[k]@.gotos.contains(m)) by {
                    if k != t {
                        assert(states@[k] == before[k]);
                    } else {
                        assert(same_keys(built[k]@.items, before[k]@.items));
                        assert forall|m: (TokenView, u32)| states@[k]@.shifts.contains(m) implies built[k]@.shifts.contains(m) by {
                            assert(mid.shifts.contains(m));
                            assert(before[k]@.shifts.contains(m));
                        }
                        assert forall|m: (u32, u32)| states@[k]@.gotos.contains(m) implies built[k]@.gotos.contains(m) by {
                            assert(before[k]@.gotos.contains(m));
                        }
                        assert(same_keys(before[k]@.items, states@[k]@.items)) by {
                            assert forall|j: int| 0 <= j < s0.items.len() implies (#[trigger] s0.items[j]).0 == s2.items[j].0 by {
                                assert(s2.items[j].0 == mid.items[j].0);
                            }
                        }
                    }
                }
                assert forall|k: int| 0 <= k < t + 1 implies crate::state::free_of_shift_reduce_conflicts((#[trigger] states@[k])@)
                    && crate::state::free_of_reduce_reduce_conflicts(states@[k]@) by {
                    if k != t {
                        assert(states@[k] == before[k]);
                    }
                }
            }
            let ghost sr0 = sr;
            let ghost rr0 = rr;
            sr = sr.saturating_add(a);
            rr = rr.saturating_add(b);
            proof {
                let v0 = states_view(before);
                let v1 = states_view(states@);
                assert(v1.take(t as int) =~= v0.take(t as int)) by {
                    assert forall|k: int| 0 <= k < t implies v1[k] == v0[k] by {
                        assert(states@[k] == before[k]);
                    }
                }
                assert(v1.take(t + 1) =~= v1.take(t as int).push(v1[t as int]));
                lemma_counts_push(v1.take(t as int), v1[t as int]);
                assert(a == v1[t as int].shift_reduce_conflicts.len());
                assert(b == v1[t as int].reduce_reduce_conflicts.len());
                assert forall|k: int| t + 1 <= k < n implies (#[trigger] states@[k])@.shift_reduce_conflicts.len() == 0
                    && states@[k]@.reduce_reduce_conflicts.len() == 0 by {
                    assert(states@[k] == before[k]);
                }
            }
            t = t + 1;
        }
        proof {
            assert(states_view(states@).take(n as int) =~= states_view(states@));
            assert forall|k: int| 0 <= k < n implies (#[trigger] states@[k])@.items.len() == built[k]@.items.len()
                && forall|j: int| 0 <= j < built[k]@.items.len() ==> (#[trigger] states@[k]@.items[j]).0 == built[k]@.items[j].0 by {
                assert(same_keys(built[k]@.items, states@[k]@.items));
            }
            lemma_kernels_kept(built, states@);
            lemma_reached_kept(specification.firsts_table(), specification.prods(), specification.start_kernel(), built, states@);
            lemma_transitions_kept(specification.firsts_table(), specification.prods(), built, states@);
        }
        Ok(Grammar { specification, parser_states: states, unresolved_sr_conflicts: sr, unresolved_rr_conflicts: rr })
    }

    /// The states of the parser.
    pub fn parser_states(&self) -> (r: &Vec<ParserState>)
        ensures
            states_view(r@) == self.states(),
            r@ == self.parser_states_seq(),
    {
        &self.parser_states
    }

    /// How many conflicts between shifting and reducing only a default resolved.
    pub fn unresolved_sr_conflicts(&self) -> (r: usize)
        ensures
            r == self.sr_conflicts(),
    {
        self.unresolved_sr_conflicts
    }

    /// How many conflicts between two reductions only a default resolved.
    pub fn unresolved_rr_conflicts(&self) -> (r: usize)
        ensures
            r == self.rr_conflicts(),
    {
        self.unresolved_rr_conflicts
    }

    /// How many conflicts only a default resolved, all told, stopping at
    /// the largest `usize`.
    pub fn total_unresolved_conflicts(&self) -> (r: usize)
        ensures
            r == if self.sr_conflicts() + self.rr_conflicts() > usize::MAX { usize::MAX as int } else {
                self.sr_conflicts() + self.rr_conflicts()
            },
    {
        self.unresolved_rr_conflicts.saturating_add(self.unresolved_sr_conflicts)
    }
}

} // verus!
