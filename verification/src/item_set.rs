//! Sets of grammar items with their look ahead sets, kept in the order of
//! their items.

use vstd::prelude::*;

use crate::firsts::{add_tokens, lemma_missing_mono, missing};
use crate::state::{items_ordered, items_view, GrammarItemKey};
use crate::terminal::{has_token, TokenSet, TokenView};

verus! {

/// `g` holds the item of production `p` with the dot after `d` symbols.
pub open spec fn present(g: Seq<(GrammarItemKey, Seq<TokenView>)>, p: u32, d: usize) -> bool {
    exists|j: int| 0 <= j < g.len() && (#[trigger] g[j]).0.production == p && g[j].0.dot == d
}

/// `g` holds that item with a look ahead token like `x`.
pub open spec fn la_has(g: Seq<(GrammarItemKey, Seq<TokenView>)>, p: u32, d: usize, x: TokenView) -> bool {
    exists|j: int|
        0 <= j < g.len() && (#[trigger] g[j]).0.production == p && g[j].0.dot == d && has_token(g[j].1, x)
}

/// `g` holds the item `k` with at least the look ahead tokens of `la`.
pub open spec fn item_in(g: Seq<(GrammarItemKey, Seq<TokenView>)>, k: GrammarItemKey, la: Seq<TokenView>) -> bool {
    &&& present(g, k.production, k.dot)
    &&& forall|x: TokenView| #[trigger] has_token(la, x) ==> la_has(g, k.production, k.dot, x)
}

/// `g` holds every item of `h` with at least its look ahead tokens.
pub open spec fn includes(g: Seq<(GrammarItemKey, Seq<TokenView>)>, h: Seq<(GrammarItemKey, Seq<TokenView>)>) -> bool {
    forall|j: int| 0 <= j < h.len() ==> item_in(g, (#[trigger] h[j]).0, h[j].1)
}

/// How many of the productions numbered below `n` have no item in `g`
/// with the dot at the start.
pub open spec fn absent_count(g: Seq<(GrammarItemKey, Seq<TokenView>)>, n: nat) -> nat
    decreases n,
{
    if n == 0 {
        0
    } else {
        absent_count(g, (n - 1) as nat) + (if present(g, (n - 1) as u32, 0) { 0nat } else { 1nat })
    }
}

/// How many tokens of `u` the look ahead sets of `g` lack, all told.
pub open spec fn la_measure(g: Seq<(GrammarItemKey, Seq<TokenView>)>, u: Seq<TokenView>) -> nat
    decreases g.len(),
{
    if g.len() == 0 {
        0
    } else {
        missing(g[0].1, u) + la_measure(g.drop_first(), u)
    }
}

/// Including is transitive.
pub proof fn lemma_includes_trans(
    a: Seq<(GrammarItemKey, Seq<TokenView>)>,
    b: Seq<(GrammarItemKey, Seq<TokenView>)>,
    c: Seq<(GrammarItemKey, Seq<TokenView>)>,
)
    requires
        includes(a, b),
        includes(b, c),
    ensures
        includes(a, c),
{
    assert forall|j: int| 0 <= j < c.len() implies item_in(a, (#[trigger] c[j]).0, c[j].1) by {
        assert(item_in(b, c[j].0, c[j].1));
        let jb = choose|jb: int| 0 <= jb < b.len() && (#[trigger] b[jb]).0.production == c[j].0.production && b[jb].0.dot == c[j].0.dot;
        assert(item_in(a, b[jb].0, b[jb].1));
        assert forall|x: TokenView| #[trigger] has_token(c[j].1, x) implies la_has(a, c[j].0.production, c[j].0.dot, x) by {
            assert(la_has(b, c[j].0.production, c[j].0.dot, x));
            let jx = choose|jx: int| 0 <= jx < b.len() && (#[trigger] b[jx]).0.production == c[j].0.production
                && b[jx].0.dot == c[j].0.dot && has_token(b[jx].1, x);
            assert(item_in(a, b[jx].0, b[jx].1));
        }
    }
}

/// A set includes itself.
pub proof fn lemma_includes_refl(a: Seq<(GrammarItemKey, Seq<TokenView>)>)
    ensures
        includes(a, a),
{
    assert forall|j: int| 0 <= j < a.len() implies item_in(a, (#[trigger] a[j]).0, a[j].1) by {
        assert(present(a, a[j].0.production, a[j].0.dot));
        assert forall|x: TokenView| #[trigger] has_token(a[j].1, x) implies la_has(a, a[j].0.production, a[j].0.dot, x) by {}
    }
}

/// More items present means fewer productions absent, and strictly fewer
/// when one of them comes in.
pub proof fn lemma_absent_mono(
    g1: Seq<(GrammarItemKey, Seq<TokenView>)>,
    g2: Seq<(GrammarItemKey, Seq<TokenView>)>,
    n: nat,
    q: u32,
)
    requires
        forall|p: u32| #[trigger] present(g1, p, 0) ==> present(g2, p, 0),
    ensures
        absent_count(g2, n) <= absent_count(g1, n),
        q < n && present(g2, q, 0) && !present(g1, q, 0) ==> absent_count(g2, n) < absent_count(g1, n),
    decreases n,
{
    if n > 0 {
        lemma_absent_mono(g1, g2, (n - 1) as nat, q);
        if present(g1, (n - 1) as u32, 0) {
            assert(present(g2, (n - 1) as u32, 0));
        }
    }
}

/// Growing the look ahead set of one item does not raise the measure, and
/// lowers it when the item gains a token of `u`.
pub proof fn lemma_la_measure_update(
    g1: Seq<(GrammarItemKey, Seq<TokenView>)>,
    g2: Seq<(GrammarItemKey, Seq<TokenView>)>,
    u: Seq<TokenView>,
    b: int,
    t: TokenView,
)
    requires
        g1.len() == g2.len(),
        0 <= b < g1.len(),
        forall|j: int| 0 <= j < g1.len() && j != b ==> g2[j].1 == g1[j].1,
        forall|x: TokenView| #[trigger] has_token(g1[b].1, x) ==> has_token(g2[b].1, x),
    ensures
        la_measure(g2, u) <= la_measure(g1, u),
        has_token(u, t) && has_token(g2[b].1, t) && !has_token(g1[b].1, t) ==> la_measure(g2, u) < la_measure(g1, u),
    decreases g1.len(),
{
    if b == 0 {
        lemma_missing_mono(g1[0].1, g2[0].1, u, t);
        lemma_la_measure_same(g1.drop_first(), g2.drop_first(), u);
    } else {
        assert forall|j: int| 0 <= j < g1.drop_first().len() && j != b - 1 implies g2.drop_first()[j].1 == g1.drop_first()[j].1 by {
            assert(g2[j + 1].1 == g1[j + 1].1);
        }
        assert(g2[0].1 == g1[0].1);
        lemma_la_measure_update(g1.drop_first(), g2.drop_first(), u, b - 1, t);
    }
}

/// The measure reads only the look ahead sets.
pub proof fn lemma_la_measure_same(g1: Seq<(GrammarItemKey, Seq<TokenView>)>, g2: Seq<(GrammarItemKey, Seq<TokenView>)>, u: Seq<TokenView>)
    requires
        g1.len() == g2.len(),
        forall|j: int| 0 <= j < g1.len() ==> g2[j].1 == g1[j].1,
    ensures
        la_measure(g2, u) == la_measure(g1, u),
    decreases g1.len(),
{
    if g1.len() > 0 {
        assert(g2[0].1 == g1[0].1);
        assert forall|j: int| 0 <= j < g1.drop_first().len() implies g2.drop_first()[j].1 == g1.drop_first()[j].1 by {
            assert(g2[j + 1].1 == g1[j + 1].1);
        }
        lemma_la_measure_same(g1.drop_first(), g2.drop_first(), u);
    }
}

/// Where the item of `key` stands in the ordered items, or where it would go.
pub fn locate(items: &Vec<(GrammarItemKey, TokenSet)>, key: &GrammarItemKey) -> (r: (bool, usize))
    requires
        items_ordered(items_view(items@)),
    ensures
        r.1 <= items@.len(),
        r.0 ==> r.1 < items@.len() && items@[r.1 as int].0.same_item(*key),
        !r.0 ==> forall|j: int| 0 <= j < items@.len() ==> (j < r.1 ==> (#[trigger] items@[j]).0.precedes(*key))
            && (j >= r.1 ==> key.precedes(items@[j].0)),
{
    let ghost v = items_view(items@);
    let mut i: usize = 0;
    while i < items.len()
        invariant
            i <= items@.len(),
            v == items_view(items@),
            items_ordered(v),
            forall|j: int| 0 <= j < i ==> (#[trigger] items@[j]).0.precedes(*key),
        decreases items@.len() - i,
    {
        let k = items[i].0;
        if k.production == key.production && k.dot == key.dot {
            return (true, i);
        }
        if !(k.production < key.production || (k.production == key.production && k.dot < key.dot)) {
            proof {
                assert forall|j: int| 0 <= j < items@.len() && j >= i implies key.precedes((#[trigger] items@[j]).0) by {
                    if j > i {
                        assert(v[i as int].0.precedes(v[j].0));
                        assert(v[i as int].0 == items@[i as int].0 && v[j].0 == items@[j].0);
                    }
                }
            }
            return (false, i);
        }
        i = i + 1;
    }
    (false, i)
}

/// The facts that adding look ahead tokens to one item keeps.
pub open spec fn items_sound(items: Seq<(GrammarItemKey, TokenSet)>) -> bool {
    &&& items_ordered(items_view(items))
    &&& forall|j: int| 0 <= j < items.len() ==> (#[trigger] items[j]).1.wf()
}

/// Adds the item `key` with the look ahead tokens of `look_ahead`: to its
/// look ahead set where it is there, as a new item where it is not.
/// Says whether the item was new, and whether the set of items changed.
#[verifier::rlimit(40)]
pub fn merge_item(items: &mut Vec<(GrammarItemKey, TokenSet)>, key: GrammarItemKey, look_ahead: &TokenSet) -> (r: (bool, bool))
    requires
        items_sound(old(items)@),
        look_ahead.wf(),
    ensures
        items_sound(final(items)@),
        item_in(items_view(final(items)@), key, look_ahead@),
        includes(items_view(final(items)@), items_view(old(items)@)),
        forall|j: int| 0 <= j < final(items)@.len() ==> ({
            let k = (#[trigger] final(items)@[j]).0;
            (exists|i: int| 0 <= i < old(items)@.len() && old(items)@[i].0 == k) || k == key
        }),
        forall|p: u32, d: usize, x: TokenView| #[trigger] la_has(items_view(final(items)@), p, d, x) ==> la_has(
            items_view(old(items)@),
            p,
            d,
            x,
        ) || (p == key.production && d == key.dot && has_token(look_ahead@, x)),
        r.0 ==> r.1 && !present(items_view(old(items)@), key.production, key.dot),
        !r.0 ==> final(items)@.len() == old(items)@.len() && present(items_view(old(items)@), key.production, key.dot)
            && forall|j: int| 0 <= j < old(items)@.len() ==> (#[trigger] final(items)@[j]).0 == old(items)@[j].0,
        !r.0 ==> exists|b: int| 0 <= b < old(items)@.len() && old(items)@[b].0.same_item(key)
            && (forall|j: int| 0 <= j < old(items)@.len() && j != b ==> (#[trigger] final(items)@[j]).1@ == old(items)@[j].1@)
            && (forall|x: TokenView| #[trigger] has_token(final(items)@[b].1@, x) <==> has_token(old(items)@[b].1@, x) || has_token(look_ahead@, x))
            && (r.1 == exists|x: TokenView| has_token(look_ahead@, x) && !has_token(old(items)@[b].1@, x)),
        !r.1 ==> final(items)@ == old(items)@,
{
    let ghost v0 = items_view(items@);
    let (found, pos) = locate(items, &key);
    if found {
        let mut set = items[pos].1.snapshot();
        let grew = add_tokens(&mut set, look_ahead);
        if grew {
            let k = items[pos].0;
            items.set(pos, (k, set));
        }
        proof {
            let v1 = items_view(items@);
            assert(v0[pos as int] == (old(items)@[pos as int].0, old(items)@[pos as int].1@));
            assert forall|j: int| 0 <= j < v1.len() implies v1[j] == (if j == pos { (v0[j].0, v1[j].1) } else { v0[j] }) by {
                assert(v1[j] == (items@[j].0, items@[j].1@));
                assert(v0[j] == (old(items)@[j].0, old(items)@[j].1@));
            }
            assert(items_ordered(v1)) by {
                assert forall|i: int, j: int| 0 <= i < j < v1.len() implies (#[trigger] v1[i]).0.precedes((#[trigger] v1[j]).0) by {
                    assert(v0[i].0.precedes(v0[j].0));
                }
            }
            assert(present(v1, key.production, key.dot)) by {
                assert(v1[pos as int].0.production == key.production);
            }
            assert forall|x: TokenView| #[trigger] has_token(look_ahead@, x) implies la_has(v1, key.production, key.dot, x) by {
                assert(v1[pos as int].0.production == key.production && v1[pos as int].0.dot == key.dot);
                assert(has_token(v1[pos as int].1, x));
            }
            assert(includes(v1, v0)) by {
                assert forall|j: int| 0 <= j < v0.len() implies item_in(v1, (#[trigger] v0[j]).0, v0[j].1) by {
                    assert(v1[j].0 == v0[j].0);
                    assert forall|x: TokenView| #[trigger] has_token(v0[j].1, x) implies la_has(v1, v0[j].0.production, v0[j].0.dot, x) by {
                        assert(has_token(v1[j].1, x));
                    }
                }
            }
            assert forall|p: u32, d: usize, x: TokenView| #[trigger] la_has(v1, p, d, x) implies la_has(v0, p, d, x)
                || (p == key.production && d == key.dot && has_token(look_ahead@, x)) by {
                let j = choose|j: int| 0 <= j < v1.len() && (#[trigger] v1[j]).0.production == p && v1[j].0.dot == d && has_token(v1[j].1, x);
                if j != pos {
                    assert(v1[j] == v0[j]);
                }
            }
            assert forall|j: int| 0 <= j < items@.len() implies ({
                let k = (#[trigger] items@[j]).0;
                (exists|i: int| 0 <= i < old(items)@.len() && old(items)@[i].0 == k) || k == key
            }) by {
                assert(items@[j].0 == old(items)@[j].0);
            }
            assert(present(v0, key.production, key.dot)) by {
                assert(v0[pos as int].0.production == key.production);
            }
            if grew {
                let x = choose|x: TokenView| has_token(look_ahead@, x) && !has_token(old(items)@[pos as int].1@, x);
                assert(has_token(items@[pos as int].1@, x));
            }
        }
        (false, grew)
    } else {
        items.insert(pos, (key, look_ahead.snapshot()));
        proof {
            let v1 = items_view(items@);
            assert forall|j: int| 0 <= j < v1.len() implies v1[j] == (if j < pos { v0[j] } else if j == pos { (key, look_ahead@) } else { v0[j - 1] }) by {
                assert(v1[j] == (items@[j].0, items@[j].1@));
                if j < pos {
                    assert(v0[j] == (old(items)@[j].0, old(items)@[j].1@));
                } else if j > pos {
                    assert(v0[j - 1] == (old(items)@[j - 1].0, old(items)@[j - 1].1@));
                }
            }
            assert(items_ordered(v1)) by {
                assert forall|i: int, j: int| 0 <= i < j < v1.len() implies (#[trigger] v1[i]).0.precedes((#[trigger] v1[j]).0) by {
                    if j < pos {
                        assert(v0[i].0.precedes(v0[j].0));
                    } else if i > pos {
                        assert(v0[i - 1].0.precedes(v0[j - 1].0));
                    } else if i < pos && j > pos {
                        assert(v0[i].0.precedes(v0[j - 1].0));
                    } else if i == pos {
                        assert(key.precedes(old(items)@[j - 1].0));
                    } else {
                        assert(old(items)@[i].0.precedes(key));
                    }
                }
            }
            assert forall|j: int| 0 <= j < items@.len() implies (#[trigger] items@[j]).1.wf() by {
                if j < pos {
                    assert(items@[j] == old(items)@[j]);
                } else if j > pos {
                    assert(items@[j] == old(items)@[j - 1]);
                }
            }
            assert(present(v1, key.production, key.dot)) by {
                assert(v1[pos as int].0 == key);
            }
            assert forall|x: TokenView| #[trigger] has_token(look_ahead@, x) implies la_has(v1, key.production, key.dot, x) by {
                assert(v1[pos as int] == (key, look_ahead@));
            }
            assert(includes(v1, v0)) by {
                assert forall|j: int| 0 <= j < v0.len() implies item_in(v1, (#[trigger] v0[j]).0, v0[j].1) by {
                    let jj = if j < pos { j } else { j + 1 };
                    assert(v1[jj] == v0[j]);
                    assert forall|x: TokenView| #[trigger] has_token(v0[j].1, x) implies la_has(v1, v0[j].0.production, v0[j].0.dot, x) by {
                        assert(v1[jj] == v0[j]);
                    }
                }
            }
            assert forall|p: u32, d: usize, x: TokenView| #[trigger] la_has(v1, p, d, x) implies la_has(v0, p, d, x)
                || (p == key.production && d == key.dot && has_token(look_ahead@, x)) by {
                let j = choose|j: int| 0 <= j < v1.len() && (#[trigger] v1[j]).0.production == p && v1[j].0.dot == d && has_token(v1[j].1, x);
                if j < pos {
                    assert(v1[j] == v0[j]);
                } else if j > pos {
                    assert(v1[j] == v0[j - 1]);
                }
            }
            assert forall|j: int| 0 <= j < items@.len() implies ({
                let k = (#[trigger] items@[j]).0;
                (exists|i: int| 0 <= i < old(items)@.len() && old(items)@[i].0 == k) || k == key
            }) by {
                if j < pos {
                    assert(items@[j].0 == old(items)@[j].0);
                } else if j > pos {
                    assert(items@[j].0 == old(items)@[j - 1].0);
                }
            }
            assert(!present(v0, key.production, key.dot)) by {
                if present(v0, key.production, key.dot) {
                    let j = choose|j: int| 0 <= j < v0.len() && (#[trigger] v0[j]).0.production == key.production && v0[j].0.dot == key.dot;
                    assert(v0[j].0 == old(items)@[j].0);
                }
            }
        }
        (true, true)
    }
}

} // verus!
