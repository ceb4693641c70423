//! How productions, grammar items, tokens and sets of tokens read as text,
//! in descriptions of a grammar and in the code generated for it.

use vstd::prelude::*;
use vstd::string::StringExecFns;

use crate::grammar::{has_key, rr_keys_in, state_describable, Specification};
use crate::production::{GrammarSymbol, GrammarSymbolView, ProductionView};
use crate::state::{items_view, reducible_look_ahead_has, shifts_token, GrammarItemKey, ParserState, ParserStateView};
use crate::terminal::{has_token, same_token, strictly_ordered, token_data, Token, TokenSet, TokenView};
use crate::text::{decimal, decimal_u32};

verus! {

/// The name of a token; the end token is named `AAEnd`.
pub open spec fn token_name_text(t: TokenView) -> Seq<char> {
    match t {
        TokenView::EndToken => "AAEnd"@,
        _ => token_data(t).name,
    }
}

/// How a token shows in a production: a literal token by its text, others
/// by their names.
pub open spec fn token_symbol_text(t: TokenView) -> Seq<char> {
    match t {
        TokenView::Literal(d) => d.text,
        TokenView::Regex(d) => d.name,
        TokenView::EndToken => "AAEnd"@,
    }
}

/// How a symbol shows in a production, where `names` names the non terminals.
pub open spec fn symbol_text(names: Seq<Seq<char>>, s: GrammarSymbolView) -> Seq<char> {
    match s {
        GrammarSymbolView::NonTerminal(n) => names[n as int],
        GrammarSymbolView::Terminal(t) => token_symbol_text(t),
    }
}

/// The symbols of a right hand side, each after a space.
pub open spec fn rhs_text(names: Seq<Seq<char>>, rhs: Seq<GrammarSymbolView>) -> Seq<char>
    decreases rhs.len(),
{
    if rhs.len() == 0 {
        Seq::empty()
    } else {
        rhs_text(names, rhs.drop_last()) + " "@ + symbol_text(names, rhs.last())
    }
}

/// A production's predicate as it follows the production: ` ?(predicate?)`.
pub open spec fn predicate_suffix(predicate: Option<Seq<char>>) -> Seq<char> {
    match predicate {
        Some(t) => " ?("@ + t + "?)"@,
        None => Seq::empty(),
    }
}

/// A production as text, such as `Expr: Expr + Term`, or `Expr: <empty>`.
pub open spec fn production_text(names: Seq<Seq<char>>, p: ProductionView) -> Seq<char> {
    names[p.left_hand_side as int] + ":"@ + (if p.right_hand_side.len() == 0 {
        " <empty>"@
    } else {
        rhs_text(names, p.right_hand_side)
    }) + predicate_suffix(p.predicate)
}

/// The symbols of a right hand side, each after a space, and the one after
/// the dot after ` . ` instead.
pub open spec fn dotted_text(names: Seq<Seq<char>>, rhs: Seq<GrammarSymbolView>, dot: int) -> Seq<char>
    decreases rhs.len(),
{
    if rhs.len() == 0 {
        Seq::empty()
    } else {
        dotted_text(names, rhs.drop_last(), dot) + (if rhs.len() - 1 == dot {
            " . "@
        } else {
            " "@
        }) + symbol_text(names, rhs.last())
    }
}

/// A grammar item as text, such as `Expr: Expr . + Term`.
pub open spec fn item_text(names: Seq<Seq<char>>, p: ProductionView, dot: int) -> Seq<char> {
    names[p.left_hand_side as int] + ":"@ + (if p.right_hand_side.len() == 0 {
        " . <empty>"@
    } else {
        dotted_text(names, p.right_hand_side, dot) + (if dot >= p.right_hand_side.len() {
            " . "@
        } else {
            Seq::empty()
        })
    }) + predicate_suffix(p.predicate)
}

/// The names of the tokens of `s` with `sep` between them.
pub open spec fn token_names_joined(s: Seq<TokenView>, sep: Seq<char>) -> Seq<char>
    decreases s.len(),
{
    if s.len() == 0 {
        Seq::empty()
    } else if s.len() == 1 {
        token_name_text(s[0])
    } else {
        token_names_joined(s.drop_last(), sep) + sep + token_name_text(s.last())
    }
}

/// A set of tokens as text, such as `TokenSet{PLUS, AAEnd}`.
pub open spec fn token_set_text(s: Seq<TokenView>) -> Seq<char> {
    "TokenSet{"@ + token_names_joined(s, ", "@) + "}"@
}

/// The name of a token; the end token is named `AAEnd`.
pub fn token_name_str(t: &Token) -> (r: &str)
    ensures
        r@ == token_name_text(t@),
{
    proof {
        reveal_strlit("AAEnd");
    }
    match t {
        Token::EndToken => "AAEnd",
        _ => t.name(),
    }
}

/// How a token shows in a production.
pub fn token_symbol_str(t: &Token) -> (r: &str)
    ensures
        r@ == token_symbol_text(t@),
{
    proof {
        reveal_strlit("AAEnd");
    }
    match t {
        Token::Literal(_) => t.text(),
        Token::Regex(_) => t.name(),
        Token::EndToken => "AAEnd",
    }
}

/// The names of the tokens of `set` with `sep` between them.
pub fn token_names_joined_by(set: &TokenSet, sep: &str) -> (r: String)
    ensures
        r@ == token_names_joined(set@, sep@),
{
    let tokens = set.iter();
    let mut r = String::new();
    let mut i: usize = 0;
    proof {
        assert(set@.take(0) =~= Seq::<TokenView>::empty());
    }
    while i < tokens.len()
        invariant
            i <= tokens@.len(),
            tokens@.map_values(|t: Token| t@) == set@,
            r@ == token_names_joined(set@.take(i as int), sep@),
        decreases tokens@.len() - i,
    {
        proof {
            assert(set@[i as int] == tokens@[i as int]@);
            assert(set@.take(i + 1).drop_last() =~= set@.take(i as int));
            assert(set@.take(i + 1).last() == set@[i as int]);
        }
        if i > 0 {
            r.append(sep);
        } else {
            proof {
                assert(set@.take(1) =~= seq![set@[0]]);
            }
        }
        r.append(token_name_str(&tokens[i]));
        i = i + 1;
    }
    proof {
        assert(set@.take(i as int) =~= set@);
    }
    r
}

/// A set of tokens as text, such as `TokenSet{PLUS, AAEnd}`.
pub fn token_set_string(set: &TokenSet) -> (r: String)
    ensures
        r@ == token_set_text(set@),
{
    proof {
        reveal_strlit("TokenSet{");
        reveal_strlit("}");
        reveal_strlit(", ");
    }
    let mut r = String::from_str("TokenSet{");
    r.append(token_names_joined_by(set, ", ").as_str());
    r.append("}");
    r
}

impl Specification {
    /// How `symbol` shows in a production.
    pub fn symbol_text<'a>(&'a self, symbol: &'a GrammarSymbol) -> (r: &'a str)
        requires
            self.prods_wf(),
            symbol@ matches GrammarSymbolView::NonTerminal(n) ==> n < self.non_terminals(),
        ensures
            r@ == symbol_text(self.names(), symbol@),
    {
        match symbol {
            GrammarSymbol::NonTerminal(n) => self.non_terminal_name(*n),
            GrammarSymbol::Terminal(t) => token_symbol_str(t),
        }
    }

    /// Production `p` as text, such as `Expr: Expr + Term`.
    pub fn production_text(&self, p: usize) -> (r: String)
        requires
            self.prods_wf(),
            p < self.prods().len(),
        ensures
            r@ == production_text(self.names(), self.prods()[p as int]),
    {
        proof {
            reveal_strlit(":");
            reveal_strlit(" <empty>");
            reveal_strlit(" ");
        }
        let production = self.production(p);
        let ghost pv = self.prods()[p as int];
        let ghost names = self.names();
        proof {
            self.lemma_prods_wf();
        }
        let mut r = String::new();
        r.append(self.non_terminal_name(production.left_hand_side));
        r.append(":");
        let n = production.right_hand_side.len();
        if n == 0 {
            r.append(" <empty>");
        } else {
            let mut i: usize = 0;
            proof {
                assert(pv.right_hand_side.take(0) =~= Seq::<GrammarSymbolView>::empty());
            }
            while i < n
                invariant
                    self.prods_wf(),
                    names == self.names(),
                    pv == self.prods()[p as int],
                    production@ == pv,
                    n == pv.right_hand_side.len(),
                    n > 0,
                    i <= n,
                    crate::firsts::symbols_below(pv.right_hand_side, self.non_terminals()),
                    r@ == names[pv.left_hand_side as int] + ":"@ + rhs_text(names, pv.right_hand_side.take(i as int)),
                decreases n - i,
            {
                proof {
                    assert(pv.right_hand_side[i as int] == production.right_hand_side@[i as int]@);
                    assert(pv.right_hand_side.take(i + 1).drop_last() =~= pv.right_hand_side.take(i as int));
                    assert(match pv.right_hand_side[i as int] {
                        GrammarSymbolView::NonTerminal(x) => x < self.non_terminals(),
                        GrammarSymbolView::Terminal(_) => true,
                    });
                }
                r.append(" ");
                r.append(self.symbol_text(&production.right_hand_side[i]));
                proof {
                    assert(r@ =~= names[pv.left_hand_side as int] + ":"@ + rhs_text(names, pv.right_hand_side.take(i + 1)));
                }
                i = i + 1;
            }
            proof {
                assert(pv.right_hand_side.take(n as int) =~= pv.right_hand_side);
            }
        }
        self.append_predicate(&mut r, p);
        r
    }

    /// Appends the predicate of production `p`, if it has one.
    fn append_predicate(&self, r: &mut String, p: usize)
        requires
            p < self.prods().len(),
        ensures
            final(r)@ == old(r)@ + predicate_suffix(self.prods()[p as int].predicate),
    {
        proof {
            reveal_strlit(" ?(");
            reveal_strlit("?)");
        }
        let production = self.production(p);
        match &production.predicate {
            Some(t) => {
                r.append(" ?(");
                r.append(t.as_str());
                r.append("?)");
            },
            None => {
                proof {
                    assert(old(r)@ + Seq::<char>::empty() =~= old(r)@);
                }
            },
        }
    }

    /// The grammar item `key` as text, such as `Expr: Expr . + Term`.
    pub fn item_text(&self, key: &GrammarItemKey) -> (r: String)
        requires
            self.prods_wf(),
            key.production < self.prods().len(),
        ensures
            r@ == item_text(self.names(), self.prods()[key.production as int], key.dot as int),
    {
        proof {
            reveal_strlit(":");
            reveal_strlit(" . <empty>");
            reveal_strlit(" . ");
            reveal_strlit(" ");
        }
        let p = key.production as usize;
        let production = self.production(p);
        let ghost pv = self.prods()[p as int];
        let ghost names = self.names();
        proof {
            self.lemma_prods_wf();
        }
        let mut r = String::new();
        r.append(self.non_terminal_name(production.left_hand_side));
        r.append(":");
        let n = production.right_hand_side.len();
        if n == 0 {
            r.append(" . <empty>");
        } else {
            let mut i: usize = 0;
            proof {
                assert(pv.right_hand_side.take(0) =~= Seq::<GrammarSymbolView>::empty());
            }
            while i < n
                invariant
                    self.prods_wf(),
                    names == self.names(),
                    pv == self.prods()[p as int],
                    production@ == pv,
                    n == pv.right_hand_side.len(),
                    n > 0,
                    i <= n,
                    crate::firsts::symbols_below(pv.right_hand_side, self.non_terminals()),
                    r@ == names[pv.left_hand_side as int] + ":"@ + dotted_text(names, pv.right_hand_side.take(i as int), key.dot as int),
                decreases n - i,
            {
                proof {
                    assert(pv.right_hand_side[i as int] == production.right_hand_side@[i as int]@);
                    assert(pv.right_hand_side.take(i + 1).drop_last() =~= pv.right_hand_side.take(i as int));
                    assert(match pv.right_hand_side[i as int] {
                        GrammarSymbolView::NonTerminal(x) => x < self.non_terminals(),
                        GrammarSymbolView::Terminal(_) => true,
                    });
                }
                if i == key.dot {
                    r.append(" . ");
                } else {
                    r.append(" ");
                }
                r.append(self.symbol_text(&production.right_hand_side[i]));
                proof {
                    assert(r@ =~= names[pv.left_hand_side as int] + ":"@ + dotted_text(names, pv.right_hand_side.take(i + 1), key.dot as int));
                }
                i = i + 1;
            }
            proof {
                assert(pv.right_hand_side.take(n as int) =~= pv.right_hand_side);
            }
            if key.dot >= n {
                r.append(" . ");
            } else {
                proof {
                    assert(r@ + Seq::<char>::empty() =~= r@);
                }
            }
        }
        self.append_predicate(&mut r, p);
        r
    }
}

/// The lines of a description that list grammar items with their look ahead sets.
pub open spec fn items_text(names: Seq<Seq<char>>, prods: Seq<ProductionView>, items: Seq<(GrammarItemKey, Seq<TokenView>)>) -> Seq<char>
    decreases items.len(),
{
    if items.len() == 0 {
        Seq::empty()
    } else {
        let k = items.last().0;
        items_text(names, prods, items.drop_last()) + "    "@ + item_text(names, prods[k.production as int], k.dot as int) + ": "@
            + token_set_text(items.last().1) + "\n"@
    }
}

/// The state that the first shift action of a token like `t` goes to.
pub open spec fn shift_target(shifts: Seq<(TokenView, u32)>, t: TokenView) -> Option<u32>
    decreases shifts.len(),
{
    if shifts.len() == 0 {
        None
    } else if same_token(shifts[0].0, t) {
        Some(shifts[0].1)
    } else {
        shift_target(shifts.drop_first(), t)
    }
}

/// The lines of a description that say which productions reduce on `t`.
pub open spec fn reduce_lines(
    names: Seq<Seq<char>>,
    prods: Seq<ProductionView>,
    items: Seq<(GrammarItemKey, Seq<TokenView>)>,
    t: TokenView,
) -> Seq<char>
    decreases items.len(),
{
    if items.len() == 0 {
        Seq::empty()
    } else {
        let k = items.last().0;
        reduce_lines(names, prods, items.drop_last(), t) + (if k.reducible() && has_token(items.last().1, t) {
            "    "@ + token_symbol_text(t) + ": reduce: "@ + production_text(names, prods[k.production as int]) + "\n"@
        } else {
            Seq::empty()
        })
    }
}

/// The lines of a description that give the action on each token of `la`.
pub open spec fn action_lines(names: Seq<Seq<char>>, prods: Seq<ProductionView>, st: ParserStateView, la: Seq<TokenView>) -> Seq<char>
    decreases la.len(),
{
    if la.len() == 0 {
        Seq::empty()
    } else {
        let t = la.last();
        action_lines(names, prods, st, la.drop_last()) + match shift_target(st.shifts, t) {
            Some(n) => "    "@ + token_symbol_text(t) + ": shift: -> State<"@ + decimal(n as nat) + ">\n"@,
            None => reduce_lines(names, prods, st.items, t),
        }
    }
}

/// The lines of a description that give the go to table.
pub open spec fn goto_lines(names: Seq<Seq<char>>, gotos: Seq<(u32, u32)>) -> Seq<char>
    decreases gotos.len(),
{
    if gotos.len() == 0 {
        Seq::empty()
    } else {
        goto_lines(names, gotos.drop_last()) + "    "@ + names[gotos.last().0 as int] + " -> State<"@ + decimal(gotos.last().1 as nat)
            + ">\n"@
    }
}

/// The lines of a description about the error recovery state, whose look
/// ahead set is `rla`.
pub open spec fn recovery_text(e: Option<u32>, rla: Seq<TokenView>) -> Seq<char> {
    match e {
        Some(n) => "  Error Recovery State: State<"@ + decimal(n as nat) + ">\n"@ + "    Look Ahead: "@ + token_set_text(rla) + "\n"@,
        None => "  Error Recovery State: <none>\n"@,
    }
}

/// The lines of a description about shift/reduce conflicts; the reduction
/// of each ends without a new line.
pub open spec fn sr_lines(
    names: Seq<Seq<char>>,
    prods: Seq<ProductionView>,
    sr: Seq<(TokenView, u32, GrammarItemKey, Seq<TokenView>)>,
) -> Seq<char>
    decreases sr.len(),
{
    if sr.len() == 0 {
        Seq::empty()
    } else {
        let c = sr.last();
        sr_lines(names, prods, sr.drop_last()) + "    "@ + token_symbol_text(c.0) + ":\n"@ + "      shift -> State<"@ + decimal(c.1 as nat)
            + ">\n"@ + "      reduce "@ + production_text(names, prods[c.2.production as int]) + ": "@ + token_set_text(c.3)
    }
}

/// The look ahead set of the first item `k` of `items`.
pub open spec fn item_look_ahead(items: Seq<(GrammarItemKey, Seq<TokenView>)>, k: GrammarItemKey) -> Seq<TokenView>
    decreases items.len(),
{
    if items.len() == 0 {
        Seq::empty()
    } else if items[0].0 == k {
        items[0].1
    } else {
        item_look_ahead(items.drop_first(), k)
    }
}

/// The lines of a description about reduce/reduce conflicts.
pub open spec fn rr_lines(
    names: Seq<Seq<char>>,
    prods: Seq<ProductionView>,
    items: Seq<(GrammarItemKey, Seq<TokenView>)>,
    rr: Seq<(GrammarItemKey, GrammarItemKey, Seq<TokenView>)>,
) -> Seq<char>
    decreases rr.len(),
{
    if rr.len() == 0 {
        Seq::empty()
    } else {
        let c = rr.last();
        rr_lines(names, prods, items, rr.drop_last()) + "    "@ + token_set_text(c.2) + "\n"@ + "      reduce "@ + item_text(
            names,
            prods[c.0.production as int],
            c.0.dot as int,
        ) + " : "@ + token_set_text(item_look_ahead(items, c.0)) + "\n"@ + "      reduce "@ + item_text(
            names,
            prods[c.1.production as int],
            c.1.dot as int,
        ) + " : "@ + token_set_text(item_look_ahead(items, c.1)) + "\n"@
    }
}

/// `la` is a look ahead set of state `st`: the tokens it shifts or reduces
/// on, in order.
pub open spec fn is_look_ahead_of(st: ParserStateView, la: Seq<TokenView>) -> bool {
    &&& strictly_ordered(la)
    &&& forall|t: TokenView| #[trigger] has_token(la, t) <==> reducible_look_ahead_has(st, t) || shifts_token(st, t)
}

/// The description of state `st`, whose look ahead set is `la`, and where
/// `rla` is that of its error recovery state.
pub open spec fn state_description_text(
    names: Seq<Seq<char>>,
    prods: Seq<ProductionView>,
    st: ParserStateView,
    la: Seq<TokenView>,
    rla: Seq<TokenView>,
) -> Seq<char> {
    "State<"@ + decimal(st.ident as nat) + ">:\n  Grammar Items:\n"@ + items_text(names, prods, st.items) + "  Parser Action Table:\n"@
        + (if la.len() == 0 {
        "    <empty>\n"@
    } else {
        action_lines(names, prods, st, la)
    }) + "  Go To Table:\n"@ + (if st.gotos.len() == 0 {
        "    <empty>\n"@
    } else {
        goto_lines(names, st.gotos)
    }) + recovery_text(st.error_recovery_state, rla) + (if st.shift_reduce_conflicts.len() > 0 {
        "  Shift/Reduce Conflicts:\n"@ + sr_lines(names, prods, st.shift_reduce_conflicts)
    } else {
        Seq::empty()
    }) + (if st.reduce_reduce_conflicts.len() > 0 {
        "  Reduce/Reduce Conflicts:\n"@ + rr_lines(names, prods, st.items, st.reduce_reduce_conflicts)
    } else {
        Seq::empty()
    })
}

impl ParserState {
    /// The lines that list the state's items with their look ahead sets.
    fn items_lines(&self, specification: &Specification) -> (r: String)
        requires
            specification.prods_wf(),
            forall|j: int| 0 <= j < self@.items.len() ==> (#[trigger] self@.items[j]).0.production < specification.prods().len(),
        ensures
            r@ == items_text(specification.names(), specification.prods(), self@.items),
    {
        proof {
            reveal_strlit("    ");
            reveal_strlit(": ");
            reveal_strlit("\n");
        }
        let items = self.grammar_items();
        let ghost v = self@.items;
        let mut r = String::new();
        let mut i: usize = 0;
        proof {
            assert(v.take(0) =~= Seq::<(GrammarItemKey, Seq<TokenView>)>::empty());
        }
        while i < items.len()
            invariant
                specification.prods_wf(),
                v == self@.items,
                items_view(items@) == v,
                i <= items@.len(),
                forall|j: int| 0 <= j < v.len() ==> (#[trigger] v[j]).0.production < specification.prods().len(),
                r@ == items_text(specification.names(), specification.prods(), v.take(i as int)),
            decreases items@.len() - i,
        {
            proof {
                assert(v[i as int] == (items@[i as int].0, items@[i as int].1@));
                assert(v.take(i + 1).drop_last() =~= v.take(i as int));
                assert(v.take(i + 1).last() == v[i as int]);
            }
            r.append("    ");
            r.append(specification.item_text(&items[i].0).as_str());
            r.append(": ");
            r.append(token_set_string(&items[i].1).as_str());
            r.append("\n");
            i = i + 1;
        }
        proof {
            assert(v.take(i as int) =~= v);
        }
        r
    }

    /// The state that shifting a token like `token` goes to, if any.
    fn shift_target_of(&self, token: &Token) -> (r: Option<u32>)
        ensures
            r == shift_target(self@.shifts, token@),
    {
        let shifts = self.shift_list();
        let ghost v = self@.shifts;
        let mut k: usize = 0;
        proof {
            assert(v.skip(0) =~= v);
        }
        while k < shifts.len()
            invariant
                v == self@.shifts,
                crate::state::shifts_view(shifts@) == v,
                k <= shifts@.len(),
                shift_target(v, token@) == shift_target(v.skip(k as int), token@),
            decreases shifts@.len() - k,
        {
            proof {
                assert(v[k as int] == (shifts@[k as int].0@, shifts@[k as int].1));
                assert(v.skip(k as int)[0] == v[k as int]);
                assert(v.skip(k as int).drop_first() =~= v.skip(k + 1));
            }
            if shifts[k].0.order(token) == crate::order::Order::Equal {
                return Some(shifts[k].1);
            }
            k = k + 1;
        }
        None
    }

    /// The lines that say which productions reduce on `token`.
    fn reduce_lines_for(&self, specification: &Specification, token: &Token) -> (r: String)
        requires
            self.wf(),
            specification.prods_wf(),
            forall|j: int| 0 <= j < self@.items.len() ==> (#[trigger] self@.items[j]).0.production < specification.prods().len(),
        ensures
            r@ == reduce_lines(specification.names(), specification.prods(), self@.items, token@),
    {
        proof {
            reveal_strlit("    ");
            reveal_strlit(": reduce: ");
            reveal_strlit("\n");
        }
        let items = self.grammar_items();
        let ghost v = self@.items;
        let mut r = String::new();
        let mut i: usize = 0;
        proof {
            assert(v.take(0) =~= Seq::<(GrammarItemKey, Seq<TokenView>)>::empty());
        }
        while i < items.len()
            invariant
                specification.prods_wf(),
                v == self@.items,
                items_view(items@) == v,
                forall|j: int| 0 <= j < items@.len() ==> (#[trigger] items@[j]).1.wf(),
                i <= items@.len(),
                forall|j: int| 0 <= j < v.len() ==> (#[trigger] v[j]).0.production < specification.prods().len(),
                r@ == reduce_lines(specification.names(), specification.prods(), v.take(i as int), token@),
            decreases items@.len() - i,
        {
            proof {
                assert(v[i as int] == (items@[i as int].0, items@[i as int].1@));
                assert(v.take(i + 1).drop_last() =~= v.take(i as int));
                assert(v.take(i + 1).last() == v[i as int]);
                assert(items@[i as int].1.wf());
            }
            let key = items[i].0;
            if key.is_reducible() && items[i].1.contains(token) {
                r.append("    ");
                r.append(token_symbol_str(token));
                r.append(": reduce: ");
                r.append(specification.production_text(key.production as usize).as_str());
                r.append("\n");
            } else {
                proof {
                    assert(r@ + Seq::<char>::empty() =~= r@);
                }
            }
            i = i + 1;
        }
        proof {
            assert(v.take(i as int) =~= v);
        }
        r
    }

    /// The lines that give the action on each token of `look_ahead`.
    fn action_lines_for(&self, specification: &Specification, look_ahead: &TokenSet) -> (r: String)
        requires
            self.wf(),
            specification.prods_wf(),
            forall|j: int| 0 <= j < self@.items.len() ==> (#[trigger] self@.items[j]).0.production < specification.prods().len(),
        ensures
            r@ == action_lines(specification.names(), specification.prods(), self@, look_ahead@),
    {
        proof {
            reveal_strlit("    ");
            reveal_strlit(": shift: -> State<");
            reveal_strlit(">\n");
        }
        let tokens = look_ahead.iter();
        let ghost la = look_ahead@;
        let mut r = String::new();
        let mut i: usize = 0;
        proof {
            assert(la.take(0) =~= Seq::<TokenView>::empty());
        }
        while i < tokens.len()
            invariant
                self.wf(),
                specification.prods_wf(),
                forall|j: int| 0 <= j < self@.items.len() ==> (#[trigger] self@.items[j]).0.production < specification.prods().len(),
                la == look_ahead@,
                tokens@.map_values(|t: Token| t@) == la,
                i <= tokens@.len(),
                r@ == action_lines(specification.names(), specification.prods(), self@, la.take(i as int)),
            decreases tokens@.len() - i,
        {
            proof {
                assert(la[i as int] == tokens@[i as int]@);
                assert(la.take(i + 1).drop_last() =~= la.take(i as int));
                assert(la.take(i + 1).last() == la[i as int]);
            }
            match self.shift_target_of(&tokens[i]) {
                Some(n) => {
                    r.append("    ");
                    r.append(token_symbol_str(&tokens[i]));
                    r.append(": shift: -> State<");
                    r.append(decimal_u32(n).as_str());
                    r.append(">\n");
                },
                None => {
                    r.append(self.reduce_lines_for(specification, &tokens[i]).as_str());
                },
            }
            i = i + 1;
        }
        proof {
            assert(la.take(i as int) =~= la);
        }
        r
    }

    /// The lines that give the go to table.
    fn goto_lines_for(&self, specification: &Specification) -> (r: String)
        requires
            specification.prods_wf(),
            forall|k: int| 0 <= k < self@.gotos.len() ==> (#[trigger] self@.gotos[k]).0 < specification.non_terminals(),
        ensures
            r@ == goto_lines(specification.names(), self@.gotos),
    {
        proof {
            reveal_strlit("    ");
            reveal_strlit(" -> State<");
            reveal_strlit(">\n");
        }
        let gotos = self.goto_table();
        let ghost v = self@.gotos;
        let mut r = String::new();
        let mut i: usize = 0;
        proof {
            assert(v.take(0) =~= Seq::<(u32, u32)>::empty());
        }
        while i < gotos.len()
            invariant
                specification.prods_wf(),
                v == self@.gotos,
                gotos@ == v,
                i <= gotos@.len(),
                forall|k: int| 0 <= k < v.len() ==> (#[trigger] v[k]).0 < specification.non_terminals(),
                r@ == goto_lines(specification.names(), v.take(i as int)),
            decreases gotos@.len() - i,
        {
            proof {
                assert(v.take(i + 1).drop_last() =~= v.take(i as int));
                assert(v.take(i + 1).last() == v[i as int]);
            }
            r.append("    ");
            r.append(specification.non_terminal_name(gotos[i].0));
            r.append(" -> State<");
            r.append(decimal_u32(gotos[i].1).as_str());
            r.append(">\n");
            i = i + 1;
        }
        proof {
            assert(v.take(i as int) =~= v);
        }
        r
    }

    /// The lines about shift/reduce conflicts.
    fn sr_lines_for(&self, specification: &Specification) -> (r: String)
        requires
            specification.prods_wf(),
            forall|m: int| 0 <= m < self@.shift_reduce_conflicts.len() ==> (#[trigger] self@.shift_reduce_conflicts[m]).2.production
                < specification.prods().len(),
        ensures
            r@ == sr_lines(specification.names(), specification.prods(), self@.shift_reduce_conflicts),
    {
        proof {
            reveal_strlit("    ");
            reveal_strlit(":\n");
            reveal_strlit("      shift -> State<");
            reveal_strlit(">\n");
            reveal_strlit("      reduce ");
            reveal_strlit(": ");
        }
        let list = self.shift_reduce_conflict_list();
        let ghost v = self@.shift_reduce_conflicts;
        let mut r = String::new();
        let mut i: usize = 0;
        proof {
            assert(v.take(0) =~= Seq::<(TokenView, u32, GrammarItemKey, Seq<TokenView>)>::empty());
        }
        while i < list.len()
            invariant
                specification.prods_wf(),
                v == self@.shift_reduce_conflicts,
                list@.map_values(|c: (Token, u32, GrammarItemKey, TokenSet)| (c.0@, c.1, c.2, c.3@)) == v,
                i <= list@.len(),
                forall|m: int| 0 <= m < v.len() ==> (#[trigger] v[m]).2.production < specification.prods().len(),
                r@ == sr_lines(specification.names(), specification.prods(), v.take(i as int)),
            decreases list@.len() - i,
        {
            proof {
                assert(v[i as int] == (list@[i as int].0@, list@[i as int].1, list@[i as int].2, list@[i as int].3@));
                assert(v.take(i + 1).drop_last() =~= v.take(i as int));
                assert(v.take(i + 1).last() == v[i as int]);
            }
            r.append("    ");
            r.append(token_symbol_str(&list[i].0));
            r.append(":\n");
            r.append("      shift -> State<");
            r.append(decimal_u32(list[i].1).as_str());
            r.append(">\n");
            r.append("      reduce ");
            r.append(specification.production_text(list[i].2.production as usize).as_str());
            r.append(": ");
            r.append(token_set_string(&list[i].3).as_str());
            i = i + 1;
        }
        proof {
            assert(v.take(i as int) =~= v);
        }
        r
    }

    /// The look ahead set of the first item `key`, as text.
    fn item_look_ahead_text(&self, key: &GrammarItemKey) -> (r: String)
        ensures
            r@ == token_set_text(item_look_ahead(self@.items, *key)),
    {
        let items = self.grammar_items();
        let ghost v = self@.items;
        let mut b: usize = 0;
        proof {
            assert(v.skip(0) =~= v);
        }
        while b < items.len()
            invariant
                v == self@.items,
                items_view(items@) == v,
                b <= items@.len(),
                item_look_ahead(v, *key) == item_look_ahead(v.skip(b as int), *key),
            decreases items@.len() - b,
        {
            proof {
                assert(v[b as int] == (items@[b as int].0, items@[b as int].1@));
                assert(v.skip(b as int)[0] == v[b as int]);
                assert(v.skip(b as int).drop_first() =~= v.skip(b + 1));
            }
            if items[b].0 == *key {
                return token_set_string(&items[b].1);
            }
            b = b + 1;
        }
        token_set_string(&TokenSet::new())
    }

    /// The lines about reduce/reduce conflicts.
    fn rr_lines_for(&self, specification: &Specification) -> (r: String)
        requires
            specification.prods_wf(),
            forall|j: int| 0 <= j < self@.items.len() ==> (#[trigger] self@.items[j]).0.production < specification.prods().len(),
            rr_keys_in(self@.reduce_reduce_conflicts, self@.items),
        ensures
            r@ == rr_lines(specification.names(), specification.prods(), self@.items, self@.reduce_reduce_conflicts),
    {
        proof {
            reveal_strlit("    ");
            reveal_strlit("\n");
            reveal_strlit("      reduce ");
            reveal_strlit(" : ");
        }
        let list = self.reduce_reduce_conflict_list();
        let ghost v = self@.reduce_reduce_conflicts;
        let mut r = String::new();
        let mut i: usize = 0;
        proof {
            assert(v.take(0) =~= Seq::<(GrammarItemKey, GrammarItemKey, Seq<TokenView>)>::empty());
        }
        while i < list.len()
            invariant
                specification.prods_wf(),
                v == self@.reduce_reduce_conflicts,
                list@.map_values(|c: (GrammarItemKey, GrammarItemKey, TokenSet)| (c.0, c.1, c.2@)) == v,
                i <= list@.len(),
                forall|j: int| 0 <= j < self@.items.len() ==> (#[trigger] self@.items[j]).0.production < specification.prods().len(),
                rr_keys_in(v, self@.items),
                r@ == rr_lines(specification.names(), specification.prods(), self@.items, v.take(i as int)),
            decreases list@.len() - i,
        {
            proof {
                assert(v[i as int] == (list@[i as int].0, list@[i as int].1, list@[i as int].2@));
                assert(v.take(i + 1).drop_last() =~= v.take(i as int));
                assert(v.take(i + 1).last() == v[i as int]);
                assert(has_key(self@.items, v[i as int].0) && has_key(self@.items, v[i as int].1));
                let b1 = choose|b: int| 0 <= b < self@.items.len() && self@.items[b].0 == v[i as int].0;
                let b2 = choose|b: int| 0 <= b < self@.items.len() && self@.items[b].0 == v[i as int].1;
                assert(self@.items[b1].0.production < specification.prods().len());
                assert(self@.items[b2].0.production < specification.prods().len());
            }
            r.append("    ");
            r.append(token_set_string(&list[i].2).as_str());
            r.append("\n");
            r.append("      reduce ");
            r.append(specification.item_text(&list[i].0).as_str());
            r.append(" : ");
            r.append(self.item_look_ahead_text(&list[i].0).as_str());
            r.append("\n");
            r.append("      reduce ");
            r.append(specification.item_text(&list[i].1).as_str());
            r.append(" : ");
            r.append(self.item_look_ahead_text(&list[i].1).as_str());
            r.append("\n");
            i = i + 1;
        }
        proof {
            assert(v.take(i as int) =~= v);
        }
        r
    }

    /// The lines about the error recovery state, and that state's look ahead set.
    fn recovery_lines(&self, states: &Vec<ParserState>) -> (r: (String, Ghost<Seq<TokenView>>))
        requires
            match self@.error_recovery_state {
                Some(e) => e < states@.len() && states@[e as int].wf(),
                None => true,
            },
        ensures
            r.0@ == recovery_text(self@.error_recovery_state, r.1@),
            match self@.error_recovery_state {
                Some(e) => is_look_ahead_of(states@[e as int]@, r.1@),
                None => true,
            },
    {
        proof {
            reveal_strlit("  Error Recovery State: State<");
            reveal_strlit(">\n");
            reveal_strlit("    Look Ahead: ");
            reveal_strlit("\n");
            reveal_strlit("  Error Recovery State: <none>\n");
        }
        match self.error_recovery_state() {
            Some(e) => {
                let recovery_look_ahead = states[e as usize].look_ahead_set();
                let mut r = String::from_str("  Error Recovery State: State<");
                r.append(decimal_u32(e).as_str());
                r.append(">\n");
                r.append("    Look Ahead: ");
                r.append(token_set_string(&recovery_look_ahead).as_str());
                r.append("\n");
                proof {
                    assert(r@ =~= recovery_text(self@.error_recovery_state, recovery_look_ahead@));
                }
                (r, Ghost(recovery_look_ahead@))
            },
            None => (String::from_str("  Error Recovery State: <none>\n"), Ghost(Seq::empty())),
        }
    }

    /// A description of the state for people: its items with their look
    /// ahead sets, its actions by token, its go to table, its error recovery
    /// state (one of `states`) and the conflicts that only a default resolved.
    #[verifier::rlimit(30)]
    pub fn description(&self, specification: &Specification, states: &Vec<ParserState>) -> (r: String)
        requires
            self.wf(),
            specification.prods_wf(),
            state_describable(specification.prods(), specification.non_terminals(), self@, states@.len()),
            forall|t: int| 0 <= t < states@.len() ==> (#[trigger] states@[t]).wf(),
        ensures
            exists|la: Seq<TokenView>, rla: Seq<TokenView>|
                is_look_ahead_of(self@, la) && (match self@.error_recovery_state {
                    Some(e) => is_look_ahead_of(states@[e as int]@, rla),
                    None => true,
                }) && r@ == #[trigger] state_description_text(specification.names(), specification.prods(), self@, la, rla),
    {
        proof {
            reveal_strlit("State<");
            reveal_strlit(">:\n  Grammar Items:\n");
            reveal_strlit("  Parser Action Table:\n");
            reveal_strlit("    <empty>\n");
            reveal_strlit("  Go To Table:\n");
            reveal_strlit("  Shift/Reduce Conflicts:\n");
            reveal_strlit("  Reduce/Reduce Conflicts:\n");
        }
        let mut r = String::from_str("State<");
        r.append(decimal_u32(self.ident()).as_str());
        r.append(">:\n  Grammar Items:\n");
        r.append(self.items_lines(specification).as_str());
        r.append("  Parser Action Table:\n");
        let look_ahead = self.look_ahead_set();
        let actions = if look_ahead.len() == 0 {
            String::from_str("    <empty>\n")
        } else {
            self.action_lines_for(specification, &look_ahead)
        };
        r.append(actions.as_str());
        r.append("  Go To Table:\n");
        let gotos = if self.goto_table().len() == 0 {
            String::from_str("    <empty>\n")
        } else {
            self.goto_lines_for(specification)
        };
        r.append(gotos.as_str());
        let (recovery, Ghost(rla)) = self.recovery_lines(states);
        r.append(recovery.as_str());
        let sr_part = if self.shift_reduce_conflict_list().len() > 0 {
            let mut part = String::from_str("  Shift/Reduce Conflicts:\n");
            part.append(self.sr_lines_for(specification).as_str());
            part
        } else {
            String::new()
        };
        r.append(sr_part.as_str());
        let rr_part = if self.reduce_reduce_conflict_list().len() > 0 {
            let mut part = String::from_str("  Reduce/Reduce Conflicts:\n");
            part.append(self.rr_lines_for(specification).as_str());
            part
        } else {
            String::new()
        };
        r.append(rr_part.as_str());
        proof {
            let la = look_ahead@;
            assert(is_look_ahead_of(self@, la));
            assert(r@ == state_description_text(specification.names(), specification.prods(), self@, la, rla));
        }
        r
    }
}

} // verus!
