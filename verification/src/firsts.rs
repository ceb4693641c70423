//! The tokens that strings of grammar symbols can begin with, and whether
//! they can derive the empty string.

use vstd::prelude::*;

use crate::production::{GrammarSymbol, GrammarSymbolView, ProductionView, symbols_view};
use crate::terminal::{has_token, same_token, Token, TokenSet, TokenView};

verus! {

/// For each non terminal (by number): the tokens its strings can begin
/// with, and whether it derives the empty string (is transparent).
pub struct FirstsData {
    pub token_set: TokenSet,
    pub transparent: bool,
}

/// Abstract values of a table of [`FirstsData`].
pub open spec fn firsts_view(f: Seq<FirstsData>) -> Seq<(Seq<TokenView>, bool)> {
    f.map_values(|d: FirstsData| (d.token_set@, d.transparent))
}

/// Every non terminal of `s` is numbered below `n`.
pub open spec fn symbols_below(s: Seq<GrammarSymbolView>, n: nat) -> bool {
    forall|i: int| 0 <= i < s.len() ==> match #[trigger] s[i] {
        GrammarSymbolView::NonTerminal(x) => x < n,
        GrammarSymbolView::Terminal(_) => true,
    }
}

/// Every production has its left hand side and the non terminals of its
/// right hand side numbered below `n`.
pub open spec fn productions_below(prods: Seq<ProductionView>, n: nat) -> bool {
    forall|p: int| 0 <= p < prods.len() ==> (#[trigger] prods[p]).left_hand_side < n
        && symbols_below(prods[p].right_hand_side, n)
}

/// Some string that `s` derives begins with a token like `t`, where `f`
/// gives the first tokens and transparency of each non terminal.
pub open spec fn string_first_has(f: Seq<(Seq<TokenView>, bool)>, s: Seq<GrammarSymbolView>, t: TokenView) -> bool
    decreases s.len(),
{
    if s.len() == 0 {
        false
    } else {
        match s[0] {
            GrammarSymbolView::Terminal(u) => same_token(u, t),
            GrammarSymbolView::NonTerminal(n) => has_token(f[n as int].0, t) || (f[n as int].1
                && string_first_has(f, s.drop_first(), t)),
        }
    }
}

/// Every symbol of `s` is a transparent non terminal, so `s` derives the
/// empty string.
pub open spec fn string_transparent(f: Seq<(Seq<TokenView>, bool)>, s: Seq<GrammarSymbolView>) -> bool
    decreases s.len(),
{
    if s.len() == 0 {
        true
    } else {
        match s[0] {
            GrammarSymbolView::Terminal(_) => false,
            GrammarSymbolView::NonTerminal(n) => f[n as int].1 && string_transparent(f, s.drop_first()),
        }
    }
}

/// The firsts table `f` obeys every production: what a right hand side
/// begins with, its left hand side begins with, and a transparent right
/// hand side makes its left hand side transparent.
pub open spec fn firsts_closed(f: Seq<(Seq<TokenView>, bool)>, prods: Seq<ProductionView>) -> bool {
    &&& forall|p: int, t: TokenView|
        0 <= p < prods.len() && #[trigger] string_first_has(f, prods[p].right_hand_side, t)
            ==> has_token(f[prods[p].left_hand_side as int].0, t)
    &&& forall|p: int|
        0 <= p < prods.len() && #[trigger] string_transparent(f, prods[p].right_hand_side)
            ==> f[prods[p].left_hand_side as int].1
}

/// Table `f` claims no more than table `g`.
pub open spec fn firsts_le(f: Seq<(Seq<TokenView>, bool)>, g: Seq<(Seq<TokenView>, bool)>) -> bool {
    &&& f.len() == g.len()
    &&& forall|n: int, t: TokenView| 0 <= n < f.len() && #[trigger] has_token(f[n].0, t) ==> has_token(g[n].0, t)
    &&& forall|n: int| 0 <= n < f.len() && (#[trigger] f[n]).1 ==> g[n].1
}

/// `f` is the least table that obeys every production: the first tokens
/// and transparency of each non terminal.
pub open spec fn least_firsts(f: Seq<(Seq<TokenView>, bool)>, prods: Seq<ProductionView>) -> bool {
    &&& firsts_closed(f, prods)
    &&& forall|g: Seq<(Seq<TokenView>, bool)>| g.len() == f.len() && #[trigger] firsts_closed(g, prods) ==> firsts_le(f, g)
}

/// A larger table gives larger first sets and transparency of strings.
pub proof fn lemma_string_firsts_mono(
    f: Seq<(Seq<TokenView>, bool)>,
    g: Seq<(Seq<TokenView>, bool)>,
    s: Seq<GrammarSymbolView>,
    t: TokenView,
)
    requires
        firsts_le(f, g),
        symbols_below(s, f.len()),
    ensures
        string_first_has(f, s, t) ==> string_first_has(g, s, t),
        string_transparent(f, s) ==> string_transparent(g, s),
    decreases s.len(),
{
    if s.len() > 0 {
        assert(symbols_below(s.drop_first(), f.len())) by {
            assert forall|i: int| 0 <= i < s.drop_first().len() implies match #[trigger] s.drop_first()[i] {
                GrammarSymbolView::NonTerminal(x) => x < f.len(),
                GrammarSymbolView::Terminal(_) => true,
            } by {
                assert(s.drop_first()[i] == s[i + 1]);
            }
        }
        lemma_string_firsts_mono(f, g, s.drop_first(), t);
        match s[0] {
            GrammarSymbolView::NonTerminal(n) => {
                if has_token(f[n as int].0, t) {
                    assert(has_token(g[n as int].0, t));
                }
                if f[n as int].1 {
                    assert(g[n as int].1);
                }
            },
            _ => {},
        }
    }
}

/// Whether a string begins with a token is a matter of its tokens' kinds and names.
pub proof fn lemma_string_first_same(
    f: Seq<(Seq<TokenView>, bool)>,
    s: Seq<GrammarSymbolView>,
    t: TokenView,
    u: TokenView,
)
    requires
        same_token(t, u),
    ensures
        string_first_has(f, s, t) == string_first_has(f, s, u),
    decreases s.len(),
{
    if s.len() > 0 {
        lemma_string_first_same(f, s.drop_first(), t, u);
        match s[0] {
            GrammarSymbolView::NonTerminal(n) => {
                lemma_has_same(f[n as int].0, t, u);
            },
            _ => {},
        }
    }
}

/// Holding a token is a matter of its kind and name.
pub proof fn lemma_has_same(s: Seq<TokenView>, t: TokenView, u: TokenView)
    requires
        same_token(t, u),
    ensures
        has_token(s, t) == has_token(s, u),
{
    if has_token(s, t) {
        let i = choose|i: int| 0 <= i < s.len() && same_token(#[trigger] s[i], t);
        assert(same_token(s[i], u));
    }
    if has_token(s, u) {
        let i = choose|i: int| 0 <= i < s.len() && same_token(#[trigger] s[i], u);
        assert(same_token(s[i], t));
    }
}

/// What a union of token sets holds.
pub proof fn lemma_union_has(old_s: Seq<TokenView>, other: Seq<TokenView>, new_s: Seq<TokenView>)
    requires
        forall|t: TokenView|
            #![trigger new_s.contains(t)]
            new_s.contains(t) <==> old_s.contains(t) || (other.contains(t) && !has_token(old_s, t)),
    ensures
        forall|t: TokenView| #[trigger] has_token(new_s, t) <==> has_token(old_s, t) || has_token(other, t),
{
    assert forall|t: TokenView| #[trigger] has_token(new_s, t) <==> has_token(old_s, t) || has_token(other, t) by {
        if has_token(new_s, t) {
            let i = choose|i: int| 0 <= i < new_s.len() && same_token(#[trigger] new_s[i], t);
            assert(new_s.contains(new_s[i]));
            if old_s.contains(new_s[i]) {
                let j = choose|j: int| 0 <= j < old_s.len() && old_s[j] == new_s[i];
                assert(same_token(old_s[j], t));
            } else {
                let j = choose|j: int| 0 <= j < other.len() && other[j] == new_s[i];
                assert(same_token(other[j], t));
            }
        }
        if has_token(old_s, t) {
            let i = choose|i: int| 0 <= i < old_s.len() && same_token(#[trigger] old_s[i], t);
            assert(old_s.contains(old_s[i]));
            assert(new_s.contains(old_s[i]));
            let j = choose|j: int| 0 <= j < new_s.len() && new_s[j] == old_s[i];
            assert(same_token(new_s[j], t));
        } else if has_token(other, t) {
            let i = choose|i: int| 0 <= i < other.len() && same_token(#[trigger] other[i], t);
            assert(other.contains(other[i]));
            if has_token(old_s, other[i]) {
                let j = choose|j: int| 0 <= j < old_s.len() && same_token(#[trigger] old_s[j], other[i]);
                assert(same_token(old_s[j], t));
            } else {
                assert(new_s.contains(other[i]));
                let j = choose|j: int| 0 <= j < new_s.len() && new_s[j] == other[i];
                assert(same_token(new_s[j], t));
            }
        }
    }
}

/// Adds the tokens of `other` to `set`, saying whether any was new.
pub fn add_tokens(set: &mut TokenSet, other: &TokenSet) -> (r: bool)
    requires
        old(set).wf(),
        other.wf(),
    ensures
        final(set).wf(),
        forall|t: TokenView| #[trigger] has_token(final(set)@, t) <==> has_token(old(set)@, t) || has_token(other@, t),
        r == exists|t: TokenView| has_token(other@, t) && !has_token(old(set)@, t),
        !r ==> final(set)@ == old(set)@,
{
    let mut grown = set.snapshot();
    let grew = grown.union_with(other);
    proof {
        lemma_union_has(set@, other@, grown@);
        if grew {
            let k = choose|k: int| 0 <= k < other@.len() && !has_token(set@, #[trigger] other@[k]);
            assert(has_token(other@, other@[k]) && !has_token(set@, other@[k])) by {
                assert(same_token(other@[k], other@[k]));
            }
        }
        if exists|t: TokenView| has_token(other@, t) && !has_token(set@, t) {
            let t = choose|t: TokenView| has_token(other@, t) && !has_token(set@, t);
            let k = choose|k: int| 0 <= k < other@.len() && same_token(#[trigger] other@[k], t);
            lemma_has_same(set@, other@[k], t);
            assert(!has_token(set@, other@[k]));
        }
    }
    if grew {
        *set = grown;
    }
    grew
}

/// Adds `token` to `set`.
pub fn add_token(set: &mut TokenSet, token: &Token)
    requires
        old(set).wf(),
    ensures
        final(set).wf(),
        forall|x: TokenView| #[trigger] has_token(final(set)@, x) <==> has_token(old(set)@, x) || same_token(token@, x),
{
    let ghost before = set@;
    set.insert(token);
    proof {
        assert forall|x: TokenView| #[trigger] has_token(set@, x) <==> has_token(before, x) || same_token(token@, x) by {
            if has_token(set@, x) && !has_token(before, x) {
                let k = choose|k: int| 0 <= k < set@.len() && same_token(#[trigger] set@[k], x);
                let p = choose|p: int| 0 <= p <= before.len() && set@ == before.insert(p, token@);
                if k < p {
                    assert(set@[k] == before[k]);
                } else if k > p {
                    assert(set@[k] == before[k - 1]);
                }
            }
            if same_token(token@, x) && has_token(before, token@) {
                let k = choose|k: int| 0 <= k < before.len() && same_token(#[trigger] before[k], token@);
                assert(same_token(before[k], x));
            }
            if same_token(token@, x) && !has_token(before, token@) {
                let p = choose|p: int| 0 <= p <= before.len() && set@ == before.insert(p, token@);
                assert(set@[p] == token@);
            }
            if has_token(before, x) && !has_token(before, token@) {
                let k = choose|k: int| 0 <= k < before.len() && same_token(#[trigger] before[k], x);
                let p = choose|p: int| 0 <= p <= before.len() && set@ == before.insert(p, token@);
                if k < p {
                    assert(set@[k] == before[k]);
                } else {
                    assert(set@[k + 1] == before[k]);
                }
            }
        }
    }
}

/// The tokens that the strings `symbol_string` derives can begin with, and
/// whether it derives the empty string, where `firsts` gives the first
/// tokens and transparency of each non terminal.
pub fn string_firsts(firsts: &Vec<FirstsData>, symbol_string: &[GrammarSymbol]) -> (r: (TokenSet, bool))
    requires
        symbols_below(symbols_view(symbol_string@), firsts@.len() as nat),
        forall|n: int| 0 <= n < firsts@.len() ==> (#[trigger] firsts@[n]).token_set.wf(),
    ensures
        r.0.wf(),
        forall|t: TokenView| #[trigger] has_token(r.0@, t) <==> string_first_has(firsts_view(firsts@), symbols_view(symbol_string@), t),
        r.1 == string_transparent(firsts_view(firsts@), symbols_view(symbol_string@)),
{
    let ghost f = firsts_view(firsts@);
    let ghost s = symbols_view(symbol_string@);
    let mut token_set = TokenSet::new();
    let mut i: usize = 0;
    proof {
        assert(s.skip(0) =~= s);
    }
    while i < symbol_string.len()
        invariant
            i <= symbol_string@.len(),
            f == firsts_view(firsts@),
            s == symbols_view(symbol_string@),
            symbols_below(s, firsts@.len() as nat),
            forall|n: int| 0 <= n < firsts@.len() ==> (#[trigger] firsts@[n]).token_set.wf(),
            token_set.wf(),
            string_transparent(f, s) == string_transparent(f, s.skip(i as int)),
            forall|t: TokenView| string_first_has(f, s, t) <==> #[trigger] has_token(token_set@, t)
                || string_first_has(f, s.skip(i as int), t),
        decreases symbol_string@.len() - i,
    {
        let ghost rest = s.skip(i as int);
        let ghost start = token_set@;
        proof {
            assert(rest[0] == symbol_string@[i as int]@);
            assert(rest.drop_first() =~= s.skip(i + 1));
            assert forall|t: TokenView| #[trigger] string_first_has(f, s, t) <==> has_token(start, t)
                || string_first_has(f, rest, t) by {
                assert(has_token(token_set@, t) == has_token(start, t));
            }
        }
        match &symbol_string[i] {
            GrammarSymbol::NonTerminal(n) => {
                proof {
                    assert(match s[i as int] {
                        GrammarSymbolView::NonTerminal(x) => x < firsts@.len(),
                        GrammarSymbolView::Terminal(_) => true,
                    });
                    assert(f[*n as int] == (firsts@[*n as int].token_set@, firsts@[*n as int].transparent));
                }
                add_tokens(&mut token_set, &firsts[*n as usize].token_set);
                proof {
                    assert forall|t: TokenView| string_first_has(f, s, t) <==> #[trigger] has_token(token_set@, t)
                        || (f[*n as int].1 && string_first_has(f, s.skip(i + 1), t)) by {
                        assert(has_token(token_set@, t) <==> has_token(start, t) || has_token(f[*n as int].0, t));
                        assert(string_first_has(f, s, t) <==> has_token(start, t) || string_first_has(f, rest, t));
                    }
                    assert(string_transparent(f, rest) == (f[*n as int].1 && string_transparent(f, s.skip(i + 1))));
                }
                if !firsts[*n as usize].transparent {
                    return (token_set, false);
                }
            },
            GrammarSymbol::Terminal(t) => {
                add_token(&mut token_set, t);
                proof {
                    assert(!string_transparent(f, rest));
                    assert forall|x: TokenView| string_first_has(f, s, x) <==> #[trigger] has_token(token_set@, x) by {
                        assert(string_first_has(f, s, x) <==> has_token(start, x) || string_first_has(f, rest, x));
                        assert(string_first_has(f, rest, x) == same_token(t@, x));
                    }
                }
                return (token_set, false);
            },
        }
        i = i + 1;
    }
    proof {
        assert(s.skip(i as int).len() == 0);
    }
    (token_set, true)
}

impl TokenSet {
    /// The tokens that can begin the strings that `symbol_string` followed
    /// by `token` derives, where `firsts` gives the first tokens and
    /// transparency of each non terminal.
    pub fn first_all_caps(firsts: &Vec<FirstsData>, symbol_string: &[GrammarSymbol], token: &Token) -> (r: TokenSet)
        requires
            symbols_below(symbols_view(symbol_string@), firsts@.len() as nat),
            forall|n: int| 0 <= n < firsts@.len() ==> (#[trigger] firsts@[n]).token_set.wf(),
        ensures
            r.wf(),
            forall|t: TokenView| #[trigger] has_token(r@, t) <==> string_first_has(firsts_view(firsts@), symbols_view(symbol_string@), t)
                || (string_transparent(firsts_view(firsts@), symbols_view(symbol_string@)) && same_token(token@, t)),
    {
        let (mut token_set, transparent) = string_firsts(firsts, symbol_string);
        if transparent {
            add_token(&mut token_set, token);
        }
        token_set
    }
}

/// The tokens of the right hand side `s`, in order.
pub open spec fn rhs_terminals(s: Seq<GrammarSymbolView>) -> Seq<TokenView>
    decreases s.len(),
{
    if s.len() == 0 {
        Seq::empty()
    } else {
        match s[0] {
            GrammarSymbolView::Terminal(t) => seq![t] + rhs_terminals(s.drop_first()),
            GrammarSymbolView::NonTerminal(_) => rhs_terminals(s.drop_first()),
        }
    }
}

/// The tokens of all right hand sides, production by production.
pub open spec fn grammar_terminals(prods: Seq<ProductionView>) -> Seq<TokenView>
    decreases prods.len(),
{
    if prods.len() == 0 {
        Seq::empty()
    } else {
        rhs_terminals(prods[0].right_hand_side) + grammar_terminals(prods.drop_first())
    }
}

/// A token is held by a concatenation when one of its parts holds it.
pub proof fn lemma_has_concat(a: Seq<TokenView>, b: Seq<TokenView>, t: TokenView)
    ensures
        has_token(a + b, t) == (has_token(a, t) || has_token(b, t)),
{
    if has_token(a + b, t) {
        let i = choose|i: int| 0 <= i < (a + b).len() && same_token(#[trigger] (a + b)[i], t);
        if i < a.len() {
            assert((a + b)[i] == a[i]);
        } else {
            assert((a + b)[i] == b[i - a.len()]);
        }
    }
    if has_token(a, t) {
        let i = choose|i: int| 0 <= i < a.len() && same_token(#[trigger] a[i], t);
        assert((a + b)[i] == a[i]);
    }
    if has_token(b, t) {
        let i = choose|i: int| 0 <= i < b.len() && same_token(#[trigger] b[i], t);
        assert((a + b)[a.len() + i] == b[i]);
    }
}

/// Each token of a right hand side is among the tokens of the grammar.
pub proof fn lemma_grammar_terminals(prods: Seq<ProductionView>, p: int, t: TokenView)
    requires
        0 <= p < prods.len(),
        has_token(rhs_terminals(prods[p].right_hand_side), t),
    ensures
        has_token(grammar_terminals(prods), t),
    decreases prods.len(),
{
    lemma_has_concat(rhs_terminals(prods[0].right_hand_side), grammar_terminals(prods.drop_first()), t);
    if p > 0 {
        assert(prods.drop_first()[p - 1] == prods[p]);
        lemma_grammar_terminals(prods.drop_first(), p - 1, t);
    }
}

/// Every first token of the table `f` is held by `u`.
pub open spec fn firsts_within(f: Seq<(Seq<TokenView>, bool)>, u: Seq<TokenView>) -> bool {
    forall|n: int, t: TokenView| 0 <= n < f.len() && #[trigger] has_token(f[n].0, t) ==> has_token(u, t)
}

/// A first token of a string is one of its own tokens or a first token of
/// one of its non terminals.
pub proof fn lemma_string_first_within(
    f: Seq<(Seq<TokenView>, bool)>,
    s: Seq<GrammarSymbolView>,
    u: Seq<TokenView>,
    t: TokenView,
)
    requires
        firsts_within(f, u),
        symbols_below(s, f.len()),
        string_first_has(f, s, t),
    ensures
        has_token(rhs_terminals(s), t) || has_token(u, t),
    decreases s.len(),
{
    assert(symbols_below(s.drop_first(), f.len())) by {
        assert forall|i: int| 0 <= i < s.drop_first().len() implies match #[trigger] s.drop_first()[i] {
            GrammarSymbolView::NonTerminal(x) => x < f.len(),
            GrammarSymbolView::Terminal(_) => true,
        } by {
            assert(s.drop_first()[i] == s[i + 1]);
        }
    }
    match s[0] {
        GrammarSymbolView::Terminal(x) => {
            lemma_has_concat(seq![x], rhs_terminals(s.drop_first()), t);
            assert(seq![x][0] == x);
        },
        GrammarSymbolView::NonTerminal(n) => {
            assert(match s[0] {
                GrammarSymbolView::NonTerminal(x) => x < f.len(),
                GrammarSymbolView::Terminal(_) => true,
            });
            if !has_token(f[n as int].0, t) {
                lemma_string_first_within(f, s.drop_first(), u, t);
            }
        },
    }
}

/// How many tokens of `u` the set `s` lacks.
pub open spec fn missing(s: Seq<TokenView>, u: Seq<TokenView>) -> nat
    decreases u.len(),
{
    if u.len() == 0 {
        0
    } else {
        (if has_token(s, u[0]) { 0nat } else { 1nat }) + missing(s, u.drop_first())
    }
}

/// A larger set lacks fewer tokens, and strictly fewer when it gained one of `u`.
pub proof fn lemma_missing_mono(s1: Seq<TokenView>, s2: Seq<TokenView>, u: Seq<TokenView>, t: TokenView)
    requires
        forall|x: TokenView| #[trigger] has_token(s1, x) ==> has_token(s2, x),
    ensures
        missing(s2, u) <= missing(s1, u),
        has_token(u, t) && has_token(s2, t) && !has_token(s1, t) ==> missing(s2, u) < missing(s1, u),
    decreases u.len(),
{
    if u.len() > 0 {
        lemma_missing_mono(s1, s2, u.drop_first(), t);
        if has_token(u, t) && has_token(s2, t) && !has_token(s1, t) {
            let i = choose|i: int| 0 <= i < u.len() && same_token(#[trigger] u[i], t);
            if i == 0 {
                lemma_has_same(s2, u[0], t);
                lemma_has_same(s1, u[0], t);
            } else {
                assert(u.drop_first()[i - 1] == u[i]);
            }
        }
    }
}

/// The measure of how far the table `f` is from holding all of `u` in
/// every entry and every entry transparent.
pub open spec fn firsts_measure(f: Seq<(Seq<TokenView>, bool)>, u: Seq<TokenView>) -> nat
    decreases f.len(),
{
    if f.len() == 0 {
        0
    } else {
        missing(f[0].0, u) + (if f[0].1 { 0nat } else { 1nat }) + firsts_measure(f.drop_first(), u)
    }
}

/// Growing one entry of a table does not raise its measure, and lowers it
/// when the entry gains a token of `u` or becomes transparent.
pub proof fn lemma_firsts_measure_update(
    f: Seq<(Seq<TokenView>, bool)>,
    g: Seq<(Seq<TokenView>, bool)>,
    u: Seq<TokenView>,
    n: int,
    t: TokenView,
)
    requires
        f.len() == g.len(),
        0 <= n < f.len(),
        forall|m: int| 0 <= m < f.len() && m != n ==> g[m] == f[m],
        forall|x: TokenView| #[trigger] has_token(f[n].0, x) ==> has_token(g[n].0, x),
        f[n].1 ==> g[n].1,
    ensures
        firsts_measure(g, u) <= firsts_measure(f, u),
        (g[n].1 && !f[n].1) || (has_token(u, t) && has_token(g[n].0, t) && !has_token(f[n].0, t))
            ==> firsts_measure(g, u) < firsts_measure(f, u),
    decreases f.len(),
{
    if n == 0 {
        lemma_missing_mono(f[0].0, g[0].0, u, t);
        assert(f.drop_first() =~= g.drop_first());
    } else {
        assert(g[0] == f[0]);
        assert forall|m: int| 0 <= m < f.drop_first().len() && m != n - 1 implies g.drop_first()[m] == f.drop_first()[m] by {
            assert(g[m + 1] == f[m + 1]);
        }
        lemma_firsts_measure_update(f.drop_first(), g.drop_first(), u, n - 1, t);
    }
}

/// One production is obeyed by the table `f`.
pub open spec fn production_obeyed(f: Seq<(Seq<TokenView>, bool)>, p: ProductionView) -> bool {
    &&& forall|t: TokenView| #[trigger] string_first_has(f, p.right_hand_side, t) ==> has_token(f[p.left_hand_side as int].0, t)
    &&& string_transparent(f, p.right_hand_side) ==> f[p.left_hand_side as int].1
}

/// The first tokens and transparency of every non terminal numbered below
/// `non_terminal_count`: the least table that every production obeys.
#[verifier::rlimit(30)]
pub fn compute_firsts(productions: &Vec<crate::production::Production>, non_terminal_count: u32) -> (r: Vec<FirstsData>)
    requires
        productions_below(productions@.map_values(|p: crate::production::Production| p@), non_terminal_count as nat),
    ensures
        r@.len() == non_terminal_count,
        forall|n: int| 0 <= n < r@.len() ==> (#[trigger] r@[n]).token_set.wf(),
        least_firsts(firsts_view(r@), productions@.map_values(|p: crate::production::Production| p@)),
        firsts_within(firsts_view(r@), grammar_terminals(productions@.map_values(|p: crate::production::Production| p@))),
{
    let ghost prods = productions@.map_values(|p: crate::production::Production| p@);
    let ghost u = grammar_terminals(prods);
    let mut firsts: Vec<FirstsData> = Vec::new();
    let mut k: u32 = 0;
    while k < non_terminal_count
        invariant
            k <= non_terminal_count,
            firsts@.len() == k,
            forall|n: int| 0 <= n < firsts@.len() ==> (#[trigger] firsts@[n]).token_set.wf()
                && firsts@[n].token_set@.len() == 0 && !firsts@[n].transparent,
        decreases non_terminal_count - k,
    {
        firsts.push(FirstsData { token_set: TokenSet::new(), transparent: false });
        k = k + 1;
    }
    proof {
        let f = firsts_view(firsts@);
        assert forall|g: Seq<(Seq<TokenView>, bool)>| g.len() == f.len() && #[trigger] firsts_closed(g, prods) implies firsts_le(f, g) by {
            assert forall|n: int, t: TokenView| 0 <= n < f.len() && #[trigger] has_token(f[n].0, t) implies has_token(g[n].0, t) by {
                assert(f[n].0.len() == 0);
            }
        }
    }
    loop
        invariant
            firsts@.len() == non_terminal_count,
            prods == productions@.map_values(|p: crate::production::Production| p@),
            u == grammar_terminals(prods),
            productions_below(prods, non_terminal_count as nat),
            forall|n: int| 0 <= n < firsts@.len() ==> (#[trigger] firsts@[n]).token_set.wf(),
            firsts_within(firsts_view(firsts@), u),
            forall|g: Seq<(Seq<TokenView>, bool)>| g.len() == firsts@.len() && #[trigger] firsts_closed(g, prods)
                ==> firsts_le(firsts_view(firsts@), g),
        ensures
            firsts@.len() == non_terminal_count,
            forall|n: int| 0 <= n < firsts@.len() ==> (#[trigger] firsts@[n]).token_set.wf(),
            firsts_within(firsts_view(firsts@), u),
            firsts_closed(firsts_view(firsts@), prods),
            forall|g: Seq<(Seq<TokenView>, bool)>| g.len() == firsts@.len() && #[trigger] firsts_closed(g, prods)
                ==> firsts_le(firsts_view(firsts@), g),
        decreases firsts_measure(firsts_view(firsts@), u),
    {
        let ghost at_start = firsts_view(firsts@);
        let mut changed = false;
        let mut p: usize = 0;
        while p < productions.len()
            invariant
                p <= productions@.len(),
                firsts@.len() == non_terminal_count,
                prods == productions@.map_values(|p: crate::production::Production| p@),
                u == grammar_terminals(prods),
                productions_below(prods, non_terminal_count as nat),
                forall|n: int| 0 <= n < firsts@.len() ==> (#[trigger] firsts@[n]).token_set.wf(),
                firsts_within(firsts_view(firsts@), u),
                forall|g: Seq<(Seq<TokenView>, bool)>| g.len() == firsts@.len() && #[trigger] firsts_closed(g, prods)
                    ==> firsts_le(firsts_view(firsts@), g),
                firsts_measure(firsts_view(firsts@), u) <= firsts_measure(at_start, u),
                changed ==> firsts_measure(firsts_view(firsts@), u) < firsts_measure(at_start, u),
                !changed ==> firsts_view(firsts@) == at_start,
                !changed ==> forall|q: int| 0 <= q < p ==> production_obeyed(at_start, #[trigger] prods[q]),
            decreases productions@.len() - p,
        {
            let ghost f = firsts_view(firsts@);
            let ghost prod = prods[p as int];
            proof {
                assert(prod == productions@[p as int]@);
                assert(prod.left_hand_side < non_terminal_count && symbols_below(prod.right_hand_side, non_terminal_count as nat));
            }
            let lhs = productions[p].left_hand_side as usize;
            let (set, transparent) = string_firsts(&firsts, productions[p].right_hand_side.as_slice());
            proof {
                assert(productions[p as int].right_hand_side@ == productions@[p as int].right_hand_side@);
                assert(f[lhs as int] == (firsts@[lhs as int].token_set@, firsts@[lhs as int].transparent));
            }
            let mut entry = FirstsData { token_set: TokenSet::new(), transparent: false };
            std::mem::swap(&mut entry, &mut firsts[lhs]);
            let grew = add_tokens(&mut entry.token_set, &set);
            let became_transparent = transparent && !entry.transparent;
            if transparent {
                entry.transparent = true;
            }
            let ghost old_entry_flag = f[lhs as int].1;
            firsts.set(lhs, entry);
            proof {
                let f2 = firsts_view(firsts@);
                assert(f2 =~= f.update(lhs as int, (firsts@[lhs as int].token_set@, firsts@[lhs as int].transparent)));
                assert forall|x: TokenView| #[trigger] has_token(f[lhs as int].0, x) implies has_token(f2[lhs as int].0, x) by {}
                // the new tokens are tokens of the grammar
                assert forall|n: int, t: TokenView| 0 <= n < f2.len() && #[trigger] has_token(f2[n].0, t) implies has_token(u, t) by {
                    if n == lhs && !has_token(f[n].0, t) {
                        assert(string_first_has(f, prod.right_hand_side, t));
                        lemma_string_first_within(f, prod.right_hand_side, u, t);
                        if has_token(rhs_terminals(prod.right_hand_side), t) {
                            lemma_grammar_terminals(prods, p as int, t);
                        }
                    }
                }
                // the table stays below every table that obeys the productions
                assert forall|g: Seq<(Seq<TokenView>, bool)>| g.len() == firsts@.len() && #[trigger] firsts_closed(g, prods)
                    implies firsts_le(f2, g) by {
                    assert(firsts_le(f, g));
                    assert forall|n: int, t: TokenView| 0 <= n < f2.len() && #[trigger] has_token(f2[n].0, t) implies has_token(g[n].0, t) by {
                        if n == lhs && !has_token(f[n].0, t) {
                            lemma_string_firsts_mono(f, g, prod.right_hand_side, t);
                            assert(string_first_has(g, prods[p as int].right_hand_side, t));
                        }
                    }
                    assert forall|n: int| 0 <= n < f2.len() && (#[trigger] f2[n]).1 implies g[n].1 by {
                        if n == lhs && !f[n].1 {
                            lemma_string_firsts_mono(f, g, prod.right_hand_side, arbitrary());
                            assert(string_transparent(g, prods[p as int].right_hand_side));
                        }
                    }
                }
                // the measure
                if grew {
                    let t = choose|t: TokenView| has_token(set@, t) && !has_token(f[lhs as int].0, t);
                    assert(has_token(f2[lhs as int].0, t));
                    assert(has_token(u, t));
                    lemma_firsts_measure_update(f, f2, u, lhs as int, t);
                } else {
                    lemma_firsts_measure_update(f, f2, u, lhs as int, arbitrary());
                }
                if !grew && !became_transparent {
                    assert(f2 =~= f);
                    assert(production_obeyed(f, prod));
                }
            }
            if grew || became_transparent {
                changed = true;
            }
            p = p + 1;
        }
        if !changed {
            proof {
                let f = firsts_view(firsts@);
                assert forall|q: int, t: TokenView| 0 <= q < prods.len() && #[trigger] string_first_has(f, prods[q].right_hand_side, t)
                    implies has_token(f[prods[q].left_hand_side as int].0, t) by {
                    assert(production_obeyed(f, prods[q]));
                }
                assert forall|q: int| 0 <= q < prods.len() && #[trigger] string_transparent(f, prods[q].right_hand_side)
                    implies f[prods[q].left_hand_side as int].1 by {
                    assert(production_obeyed(f, prods[q]));
                }
            }
            break;
        }
    }
    firsts
}

} // verus!
