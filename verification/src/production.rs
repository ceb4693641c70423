//! The productions of a grammar and the grammar items made from them.

use vstd::prelude::*;

use vstd::string::StringExecFns;
use vstd::string::StrSliceExecFns;

use crate::regex_matcher::{
    compile, first_groups, numbered_reference_pattern, regex_compiles, regex_first_groups, regex_split_pieces, split_pieces,
    AnchoredRegex,
};
use crate::state::GrammarItemKey;
use crate::symbol::Associativity;
use crate::terminal::{token_data, Token, TokenView};
use crate::text::{decimal, decimal_string};

verus! {

/// A symbol of a right hand side: a token, or a non terminal by its number.
#[derive(Debug)]
pub enum GrammarSymbol {
    Terminal(Token),
    NonTerminal(u32),
}

/// Abstract value of a [`GrammarSymbol`].
pub enum GrammarSymbolView {
    Terminal(TokenView),
    NonTerminal(u32),
}

impl View for GrammarSymbol {
    type V = GrammarSymbolView;

    open spec fn view(&self) -> GrammarSymbolView {
        match self {
            GrammarSymbol::Terminal(t) => GrammarSymbolView::Terminal(t@),
            GrammarSymbol::NonTerminal(n) => GrammarSymbolView::NonTerminal(*n),
        }
    }
}

/// The abstract values of a string of symbols.
pub open spec fn symbols_view(s: Seq<GrammarSymbol>) -> Seq<GrammarSymbolView> {
    s.map_values(|x: GrammarSymbol| x@)
}

impl GrammarSymbol {
    /// A copy of this symbol.
    pub fn snapshot(&self) -> (r: Self)
        ensures
            r@ == self@,
    {
        match self {
            GrammarSymbol::Terminal(t) => GrammarSymbol::Terminal(t.snapshot()),
            GrammarSymbol::NonTerminal(n) => GrammarSymbol::NonTerminal(*n),
        }
    }

    pub fn is_non_terminal(&self) -> (r: bool)
        ensures
            r == (self@ is NonTerminal),
    {
        match self {
            GrammarSymbol::NonTerminal(_) => true,
            _ => false,
        }
    }
}

/// The associativity and precedence of the first token of a right hand
/// side, if it holds a token.
pub open spec fn rhs_precedence(rhs: Seq<GrammarSymbolView>) -> Option<(Associativity, u16)>
    decreases rhs.len(),
{
    if rhs.len() == 0 {
        None
    } else {
        match rhs[0] {
            GrammarSymbolView::Terminal(t) => Some(
                match t {
                    TokenView::EndToken => (Associativity::NonAssoc, 0u16),
                    _ => (token_data(t).associativity, token_data(t).precedence),
                },
            ),
            GrammarSymbolView::NonTerminal(_) => rhs_precedence(rhs.drop_first()),
        }
    }
}

/// The associativity and precedence that a right hand side takes from its
/// first token, if it holds a token.
pub fn rhs_associated_precedence(symbols: &[GrammarSymbol]) -> (r: Option<(Associativity, u16)>)
    ensures
        r == rhs_precedence(symbols_view(symbols@)),
{
    let mut i: usize = 0;
    proof {
        assert(symbols_view(symbols@).skip(0) =~= symbols_view(symbols@));
    }
    while i < symbols.len()
        invariant
            i <= symbols@.len(),
            rhs_precedence(symbols_view(symbols@)) == rhs_precedence(symbols_view(symbols@).skip(i as int)),
        decreases symbols@.len() - i,
    {
        let ghost rest = symbols_view(symbols@).skip(i as int);
        proof {
            assert(rest[0] == symbols@[i as int]@);
            assert(rest.drop_first() =~= symbols_view(symbols@).skip(i + 1));
        }
        match &symbols[i] {
            GrammarSymbol::Terminal(token) => {
                return Some(
                    match token {
                        Token::EndToken => (Associativity::NonAssoc, 0u16),
                        _ => token.associativity_and_precedence(),
                    },
                );
            },
            GrammarSymbol::NonTerminal(_) => {},
        }
        i = i + 1;
    }
    None
}

/// A production: a non terminal (by number) and the string of symbols it
/// derives, with the associativity and precedence that resolve conflicts.
#[derive(Debug)]
pub struct Production {
    pub ident: u32,
    pub left_hand_side: u32,
    pub right_hand_side: Vec<GrammarSymbol>,
    pub associativity: Associativity,
    pub precedence: u16,
    /// The condition, as source text, under which the production may be reduced.
    pub predicate: Option<String>,
}

/// Abstract value of a [`Production`].
pub struct ProductionView {
    pub ident: u32,
    pub left_hand_side: u32,
    pub right_hand_side: Seq<GrammarSymbolView>,
    pub associativity: Associativity,
    pub precedence: u16,
    pub predicate: Option<Seq<char>>,
}

impl ProductionView {
    pub open spec fn has_predicate(self) -> bool {
        self.predicate is Some
    }
}

impl View for Production {
    type V = ProductionView;

    open spec fn view(&self) -> ProductionView {
        ProductionView {
            ident: self.ident,
            left_hand_side: self.left_hand_side,
            right_hand_side: symbols_view(self.right_hand_side@),
            associativity: self.associativity,
            precedence: self.precedence,
            predicate: match &self.predicate {
                Some(t) => Some(t@),
                None => None,
            },
        }
    }
}

/// The right hand side ends with the non terminal `error`.
pub open spec fn ends_with(rhs: Seq<GrammarSymbolView>, error: u32) -> bool {
    rhs.len() > 0 && rhs.last() == GrammarSymbolView::NonTerminal(error)
}

/// The grammar item of production `p` with the dot after `dot` symbols.
pub open spec fn item_key(p: ProductionView, dot: usize, start: u32, error: u32) -> GrammarItemKey {
    GrammarItemKey {
        production: p.ident,
        dot,
        rhs_len: p.right_hand_side.len() as usize,
        associativity: p.associativity,
        precedence: p.precedence,
        has_predicate: p.has_predicate(),
        has_error_recovery_tail: ends_with(p.right_hand_side, error),
        is_start: p.left_hand_side == start,
    }
}

impl Production {
    /// A production whose associativity and precedence are those given, or
    /// else those of the first token of its right hand side, or else none.
    pub fn new(
        ident: u32,
        left_hand_side: u32,
        right_hand_side: Vec<GrammarSymbol>,
        associative_precedence: Option<(Associativity, u16)>,
        predicate: Option<String>,
    ) -> (r: Self)
        ensures
            r@.ident == ident,
            r@.left_hand_side == left_hand_side,
            r@.right_hand_side == symbols_view(right_hand_side@),
            r@.predicate == match predicate {
                Some(t) => Some(t@),
                None => None::<Seq<char>>,
            },
            (r@.associativity, r@.precedence) == match associative_precedence {
                Some(ap) => ap,
                None => match rhs_precedence(symbols_view(right_hand_side@)) {
                    Some(ap) => ap,
                    None => (Associativity::NonAssoc, 0u16),
                },
            },
    {
        let (associativity, precedence) = match associative_precedence {
            Some(ap) => ap,
            None => match rhs_associated_precedence(right_hand_side.as_slice()) {
                Some(ap) => ap,
                None => (Associativity::NonAssoc, 0u16),
            },
        };
        Production { ident, left_hand_side, right_hand_side, associativity, precedence, predicate }
    }

    pub fn len(&self) -> (r: usize)
        ensures
            r == self@.right_hand_side.len(),
    {
        self.right_hand_side.len()
    }

    pub fn is_empty(&self) -> (r: bool)
        ensures
            r == (self@.right_hand_side.len() == 0),
    {
        self.right_hand_side.len() == 0
    }

    /// The right hand side ends with the non terminal `error`.
    pub fn has_error_recovery_tail(&self, error: u32) -> (r: bool)
        ensures
            r == ends_with(self@.right_hand_side, error),
    {
        let n = self.right_hand_side.len();
        if n == 0 {
            false
        } else {
            proof {
                assert(self@.right_hand_side.last() == self.right_hand_side@[n - 1]@);
            }
            match &self.right_hand_side[n - 1] {
                GrammarSymbol::NonTerminal(x) => *x == error,
                GrammarSymbol::Terminal(_) => false,
            }
        }
    }

    /// The grammar item of this production with the dot at its start.
    pub fn start_item(&self, start: u32, error: u32) -> (r: GrammarItemKey)
        ensures
            r == item_key(self@, 0, start, error),
    {
        GrammarItemKey::new(
            self.ident,
            self.right_hand_side.len(),
            self.associativity,
            self.precedence,
            self.predicate.is_some(),
            self.has_error_recovery_tail(error),
            self.left_hand_side == start,
        )
    }
}

/// The value of a string of ASCII decimal digits; nothing for the empty
/// string or one with another character.
pub open spec fn digits_value(s: Seq<char>) -> Option<nat>
    decreases s.len(),
{
    if s.len() == 0 {
        None
    } else {
        let c = s.last();
        if '0' <= c && c <= '9' {
            let d = (c as nat - '0' as nat) as nat;
            if s.len() == 1 {
                Some(d)
            } else {
                match digits_value(s.drop_last()) {
                    Some(v) => Some(v * 10 + d),
                    None => None,
                }
            }
        } else {
            None
        }
    }
}

/// What stands for `$n` (with `digits` the digits of `n`) in a predicate of
/// a production of `rhs_len` symbols: the attribute `rhs_len + 1 - n` from
/// the top of the parse stack; 0 where `digits` is not a number or `n` lies
/// beyond the production.
pub open spec fn attribute_reference_text(rhs_len: nat, digits: Seq<char>) -> Seq<char> {
    let k: nat = match digits_value(digits) {
        Some(n) => if n <= rhs_len + 1 { (rhs_len + 1 - n) as nat } else { 0 },
        None => 0,
    };
    "aa_attributes.at_len_minus_n("@ + decimal(k) + ")"@
}

/// The number that `digits` writes, where it writes one; any number above
/// `bound` is given as `bound + 1`.
pub fn capped_digits_value(digits: &str, bound: u128) -> (r: Option<u128>)
    requires
        bound < u128::MAX / 16,
    ensures
        match digits_value(digits@) {
            Some(n) => r == Some(if n <= bound { n as u128 } else { (bound + 1) as u128 }),
            None => r is None,
        },
{
    let n = digits.unicode_len();
    let mut value: u128 = 0;
    let mut valid = n > 0;
    let mut i: usize = 0;
    while i < n
        invariant
            i <= n,
            n == digits@.len(),
            bound < u128::MAX / 16,
            valid ==> n > 0,
            valid == (n > 0 && digits_value(digits@.take(i as int)) != None::<nat> || (n > 0 && i == 0)),
            valid && i > 0 ==> value as int == if digits_value(digits@.take(i as int)).unwrap() <= bound {
                digits_value(digits@.take(i as int)).unwrap() as int
            } else {
                bound + 1
            },
            i == 0 ==> value == 0,
            value <= bound + 1,
            !valid ==> (n == 0 || forall|j: int| i <= j <= n ==> digits_value(#[trigger] digits@.take(j)) == None::<nat>),
        decreases n - i,
    {
        let c = digits.get_char(i);
        proof {
            assert(digits@.take(i + 1).drop_last() =~= digits@.take(i as int));
            assert(digits@.take(i + 1).last() == c);
        }
        if valid {
            if '0' <= c && c <= '9' {
                let d = (c as u32 - '0' as u32) as u128;
                if value > bound {
                    value = bound + 1;
                } else {
                    let next = value * 10 + d;
                    value = if next > bound { bound + 1 } else { next };
                }
                proof {
                    if i > 0 {
                        let v = digits_value(digits@.take(i as int)).unwrap();
                        assert(digits_value(digits@.take(i + 1)) == Some(v * 10 + d as nat));
                        if v > bound {
                            assert(v * 10 + d >= v);
                        }
                    } else {
                        assert(digits_value(digits@.take(1)) == Some(d as nat));
                    }
                }
            } else {
                valid = false;
                proof {
                    assert forall|j: int| i + 1 <= j <= n implies digits_value(#[trigger] digits@.take(j)) == None::<nat> by {
                        lemma_digits_invalid(digits@, i as int, j);
                    }
                }
            }
        }
        i = i + 1;
    }
    proof {
        assert(digits@.take(n as int) =~= digits@);
    }
    if valid {
        Some(value)
    } else {
        None
    }
}

/// What stands for `$n` in a predicate of a production of `rhs_len` symbols.
pub fn attribute_reference(rhs_len: usize, digits: &str) -> (r: String)
    requires
        rhs_len < usize::MAX,
    ensures
        r@ == attribute_reference_text(rhs_len as nat, digits@),
{
    proof {
        reveal_strlit("aa_attributes.at_len_minus_n(");
        reveal_strlit(")");
    }
    let bound: u128 = rhs_len as u128 + 1;
    let k: u128 = match capped_digits_value(digits, bound) {
        Some(value) => if value <= bound { bound - value } else { 0 },
        None => 0,
    };
    let mut r = String::from_str("aa_attributes.at_len_minus_n(");
    r.append(decimal_string(k as usize).as_str());
    r.append(")");
    r
}

/// What stands for `$n` (with `digits` the digits of `n`) in an action: the
/// attribute of the `n`th symbol of the right hand side; the first where
/// `digits` is not a number from 1 to the largest `usize`.
pub open spec fn rhs_reference_text(digits: Seq<char>) -> Seq<char> {
    let k: nat = match digits_value(digits) {
        Some(n) => if 1 <= n && n <= usize::MAX { (n - 1) as nat } else { 0 },
        None => 0,
    };
    "aa_rhs["@ + decimal(k) + "]"@
}

/// What stands for `$n` in an action.
pub fn rhs_reference(digits: &str) -> (r: String)
    ensures
        r@ == rhs_reference_text(digits@),
{
    proof {
        reveal_strlit("aa_rhs[");
        reveal_strlit("]");
    }
    let bound: u128 = usize::MAX as u128;
    let k: u128 = match capped_digits_value(digits, bound) {
        Some(value) => if 1 <= value && value <= bound { value - 1 } else { 0 },
        None => 0,
    };
    let mut r = String::from_str("aa_rhs[");
    r.append(decimal_string(k as usize).as_str());
    r.append("]");
    r
}

/// `s` with each occurrence of `from` replaced by `to`, from the left.
pub open spec fn replaced_all(s: Seq<char>, from: Seq<char>, to: Seq<char>) -> Seq<char>
    recommends
        from.len() > 0,
    decreases s.len(),
{
    if s.len() == 0 || from.len() == 0 {
        s
    } else if s.len() >= from.len() && s.take(from.len() as int) == from {
        to + replaced_all(s.skip(from.len() as int), from, to)
    } else {
        seq![s[0]] + replaced_all(s.drop_first(), from, to)
    }
}

/// Whether `pattern` occurs in `text` (of `n` characters) at `i`.
fn occurs_at(text: &str, n: usize, i: usize, pattern: &str, m: usize) -> (r: bool)
    requires
        n == text@.len(),
        m == pattern@.len(),
        i <= n,
    ensures
        r == (n - i >= m && text@.skip(i as int).take(m as int) == pattern@),
{
    if n - i < m {
        return false;
    }
    let mut j: usize = 0;
    while j < m
        invariant
            n == text@.len(),
            m == pattern@.len(),
            i <= n,
            n - i >= m,
            j <= m,
            forall|k: int| 0 <= k < j ==> text@[i + k] == pattern@[k],
        decreases m - j,
    {
        if text.get_char(i + j) != pattern.get_char(j) {
            proof {
                assert(text@.skip(i as int).take(m as int)[j as int] != pattern@[j as int]);
            }
            return false;
        }
        j = j + 1;
    }
    proof {
        assert(text@.skip(i as int).take(m as int) =~= pattern@);
    }
    true
}

/// Replaces each occurrence of `from` in `text` by `to`, from the left.
pub fn replace_all_text(text: &str, from: &str, to: &str) -> (r: String)
    requires
        from@.len() > 0,
    ensures
        r@ == replaced_all(text@, from@, to@),
{
    let n = text.unicode_len();
    let m = from.unicode_len();
    let mut r = String::new();
    let mut i: usize = 0;
    proof {
        assert(text@.skip(0) =~= text@);
        assert(r@ + replaced_all(text@.skip(0), from@, to@) =~= replaced_all(text@, from@, to@));
    }
    while i < n
        invariant
            i <= n,
            n == text@.len(),
            m == from@.len(),
            m > 0,
            r@ + replaced_all(text@.skip(i as int), from@, to@) == replaced_all(text@, from@, to@),
        decreases n - i,
    {
        let ghost rest = text@.skip(i as int);
        if occurs_at(text, n, i, from, m) {
            proof {
                assert(rest.skip(m as int) =~= text@.skip(i + m));
                assert(r@ + to@ + replaced_all(text@.skip(i + m), from@, to@) =~= r@ + replaced_all(rest, from@, to@));
            }
            r.append(to);
            i = i + m;
        } else {
            let one = text.substring_char(i, i + 1);
            proof {
                assert(one@ =~= seq![rest[0]]);
                assert(rest.drop_first() =~= text@.skip(i + 1));
                assert(r@ + one@ + replaced_all(text@.skip(i + 1), from@, to@) =~= r@ + replaced_all(rest, from@, to@));
            }
            r.append(one);
            i = i + 1;
        }
    }
    proof {
        assert(text@.skip(i as int) =~= Seq::<char>::empty());
        assert(r@ + Seq::<char>::empty() =~= r@);
    }
    r
}

/// `pieces[0]`, then `refs[0]` and `pieces[1]`, and so on up to `refs[i - 1]`
/// and `pieces[i]`.
pub open spec fn interleaved(pieces: Seq<Seq<char>>, refs: Seq<Seq<char>>, i: nat) -> Seq<char>
    decreases i,
{
    if i == 0 {
        pieces[0]
    } else {
        interleaved(pieces, refs, (i - 1) as nat) + refs[i - 1] + pieces[i as int]
    }
}

/// `text` with each match of the pattern of `$n` replaced by the attribute
/// reference of a predicate of a production of `rhs_len` symbols that its
/// digits number.
pub open spec fn numbered_references_replaced(text: Seq<char>, rhs_len: nat) -> Seq<char> {
    let groups = regex_first_groups(numbered_reference_pattern(), text);
    interleaved(
        regex_split_pieces(numbered_reference_pattern(), text),
        groups.map_values(|g: Seq<char>| attribute_reference_text(rhs_len, g)),
        groups.len(),
    )
}

/// `text` with each match of the pattern of `$n` replaced by the attribute
/// of the right hand side that its digits number.
pub open spec fn rhs_references_replaced(text: Seq<char>) -> Seq<char> {
    let groups = regex_first_groups(numbered_reference_pattern(), text);
    interleaved(
        regex_split_pieces(numbered_reference_pattern(), text),
        groups.map_values(|g: Seq<char>| rhs_reference_text(g)),
        groups.len(),
    )
}

/// Replaces each `$n` of `text` (each match of `re`) by the attribute
/// reference of a predicate of a production of `rhs_len` symbols.
pub fn replace_numbered_references(re: &AnchoredRegex, text: &str, rhs_len: usize) -> (r: String)
    requires
        re@ == numbered_reference_pattern(),
        rhs_len < usize::MAX,
    ensures
        r@ == numbered_references_replaced(text@, rhs_len as nat),
{
    let pieces = split_pieces(re, text);
    let groups = first_groups(re, text);
    let ghost pv = regex_split_pieces(re@, text@);
    let ghost rv = regex_first_groups(re@, text@).map_values(|g: Seq<char>| attribute_reference_text(rhs_len as nat, g));
    let mut r = String::new();
    r.append(pieces[0].as_str());
    proof {
        assert(r@ =~= interleaved(pv, rv, 0));
    }
    let mut i: usize = 0;
    while i < groups.len()
        invariant
            i <= groups@.len(),
            pieces@.len() == groups@.len() + 1,
            pieces@.len() == pv.len(),
            groups@.len() == regex_first_groups(re@, text@).len(),
            forall|j: int| 0 <= j < pieces@.len() ==> (#[trigger] pieces@[j])@ == pv[j],
            forall|j: int| 0 <= j < groups@.len() ==> (#[trigger] groups@[j])@ == regex_first_groups(re@, text@)[j],
            rv == regex_first_groups(re@, text@).map_values(|g: Seq<char>| attribute_reference_text(rhs_len as nat, g)),
            rhs_len < usize::MAX,
            r@ == interleaved(pv, rv, i as nat),
        decreases groups@.len() - i,
    {
        let reference = attribute_reference(rhs_len, groups[i].as_str());
        r.append(reference.as_str());
        r.append(pieces[i + 1].as_str());
        proof {
            assert(rv[i as int] == reference@);
            assert(r@ =~= interleaved(pv, rv, (i + 1) as nat));
        }
        i = i + 1;
    }
    r
}

/// Replaces each `$n` of `text` (each match of `re`) by the attribute of the
/// `n`th symbol of the right hand side.
pub fn replace_rhs_references(re: &AnchoredRegex, text: &str) -> (r: String)
    requires
        re@ == numbered_reference_pattern(),
    ensures
        r@ == rhs_references_replaced(text@),
{
    let pieces = split_pieces(re, text);
    let groups = first_groups(re, text);
    let ghost pv = regex_split_pieces(re@, text@);
    let ghost rv = regex_first_groups(re@, text@).map_values(|g: Seq<char>| rhs_reference_text(g));
    let mut r = String::new();
    r.append(pieces[0].as_str());
    proof {
        assert(r@ =~= interleaved(pv, rv, 0));
    }
    let mut i: usize = 0;
    while i < groups.len()
        invariant
            i <= groups@.len(),
            pieces@.len() == groups@.len() + 1,
            pieces@.len() == pv.len(),
            groups@.len() == regex_first_groups(re@, text@).len(),
            forall|j: int| 0 <= j < pieces@.len() ==> (#[trigger] pieces@[j])@ == pv[j],
            forall|j: int| 0 <= j < groups@.len() ==> (#[trigger] groups@[j])@ == regex_first_groups(re@, text@)[j],
            rv == regex_first_groups(re@, text@).map_values(|g: Seq<char>| rhs_reference_text(g)),
            r@ == interleaved(pv, rv, i as nat),
        decreases groups@.len() - i,
    {
        let reference = rhs_reference(groups[i].as_str());
        r.append(reference.as_str());
        r.append(pieces[i + 1].as_str());
        proof {
            assert(rv[i as int] == reference@);
            assert(r@ =~= interleaved(pv, rv, (i + 1) as nat));
        }
        i = i + 1;
    }
    r
}

/// An action with `$$` replaced by the attribute of the left hand side,
/// `$INJECT` by the injection callback and each `$n` (where the pattern of
/// `$n` compiles) by the attribute of the `n`th symbol of the right hand side.
pub open spec fn expanded_action_text(action: Seq<char>) -> Seq<char> {
    let named = replaced_all(replaced_all(action, "$$"@, "aa_lhs"@), "$INJECT"@, "aa_inject"@);
    if regex_compiles(numbered_reference_pattern()) {
        rhs_references_replaced(named)
    } else {
        named
    }
}

/// The code of an action, with its references to attributes expanded.
pub fn expanded_action(action: &str) -> (r: String)
    ensures
        r@ == expanded_action_text(action@),
{
    proof {
        reveal_strlit("$$");
        reveal_strlit("aa_lhs");
        reveal_strlit("$INJECT");
        reveal_strlit("aa_inject");
        reveal_strlit("\\$(\\d+)");
    }
    let named = replace_all_text(replace_all_text(action, "$$", "aa_lhs").as_str(), "$INJECT", "aa_inject");
    let pattern = "\\$(\\d+)";
    proof {
        assert(pattern@ =~= numbered_reference_pattern());
    }
    match compile(pattern) {
        Ok(re) => replace_rhs_references(&re, named.as_str()),
        Err(_) => named,
    }
}

/// A string of digits with a non digit at `i` has no value, nor has any
/// longer prefix of it.
proof fn lemma_digits_invalid(s: Seq<char>, i: int, j: int)
    requires
        0 <= i < j <= s.len(),
        !('0' <= s[i] && s[i] <= '9'),
    ensures
        digits_value(s.take(j)) == None::<nat>,
    decreases j,
{
    assert(s.take(j).last() == s[j - 1]);
    if j - 1 > i {
        assert(s.take(j).drop_last() =~= s.take(j - 1));
        lemma_digits_invalid(s, i, j - 1);
    }
}

/// `s` with each `$?` replaced by `aa_tag`, from the left.
pub open spec fn tag_references_replaced(s: Seq<char>) -> Seq<char>
    decreases s.len(),
{
    if s.len() == 0 {
        Seq::empty()
    } else if s.len() >= 2 && s[0] == '$' && s[1] == '?' {
        "aa_tag"@ + tag_references_replaced(s.skip(2))
    } else {
        seq![s[0]] + tag_references_replaced(s.drop_first())
    }
}

/// Replaces each `$?` of `text` by `aa_tag`, from the left.
pub fn replace_tag_references(text: &str) -> (r: String)
    ensures
        r@ == tag_references_replaced(text@),
{
    proof {
        reveal_strlit("aa_tag");
    }
    let n = text.unicode_len();
    let mut r = String::new();
    let mut i: usize = 0;
    proof {
        assert(text@.skip(0) =~= text@);
        assert(r@ + tag_references_replaced(text@.skip(0)) =~= tag_references_replaced(text@));
    }
    while i < n
        invariant
            i <= n,
            n == text@.len(),
            r@ + tag_references_replaced(text@.skip(i as int)) == tag_references_replaced(text@),
        decreases n - i,
    {
        let ghost rest = text@.skip(i as int);
        let c = text.get_char(i);
        if c == '$' && i + 1 < n && text.get_char(i + 1) == '?' {
            proof {
                assert(rest[0] == '$' && rest[1] == '?');
                assert(rest.skip(2) =~= text@.skip(i + 2));
                assert(r@ + "aa_tag"@ + tag_references_replaced(text@.skip(i + 2)) =~= r@ + tag_references_replaced(rest));
            }
            r.append("aa_tag");
            i = i + 2;
        } else {
            let one = text.substring_char(i, i + 1);
            proof {
                assert(rest[0] == c);
                assert(one@ =~= seq![c]);
                assert(rest.drop_first() =~= text@.skip(i + 1));
                assert(!(rest.len() >= 2 && rest[0] == '$' && rest[1] == '?'));
                assert(r@ + one@ + tag_references_replaced(text@.skip(i + 1)) =~= r@ + tag_references_replaced(rest));
            }
            r.append(one);
            i = i + 1;
        }
    }
    proof {
        assert(text@.skip(i as int) =~= Seq::<char>::empty());
        assert(r@ + Seq::<char>::empty() =~= r@);
    }
    r
}

/// The predicate of a production with each `$n` replaced by the attribute
/// it numbers (where the pattern of `$n` compiles), and each `$?` by the
/// look ahead tag.
pub open spec fn expanded_predicate_text(predicate: Seq<char>, rhs_len: nat) -> Seq<char> {
    if regex_compiles(numbered_reference_pattern()) {
        tag_references_replaced(numbered_references_replaced(predicate, rhs_len))
    } else {
        tag_references_replaced(predicate)
    }
}

impl Production {
    /// The predicate, if any, with each `$n` replaced by the attribute of
    /// the `n`th symbol of the right hand side and each `$?` by the look
    /// ahead tag; where the pattern of `$n` does not compile, only the
    /// look ahead tags are replaced.
    pub fn expanded_predicate(&self) -> (r: Option<String>)
        requires
            self@.right_hand_side.len() < usize::MAX,
        ensures
            self@.predicate is None ==> r is None,
            self@.predicate matches Some(p) ==> r matches Some(t) && t@ == expanded_predicate_text(p, self@.right_hand_side.len()),
    {
        proof {
            reveal_strlit("\\$(\\d+)");
        }
        match &self.predicate {
            None => None,
            Some(predicate) => {
                let pattern = "\\$(\\d+)";
                proof {
                    assert(pattern@ =~= numbered_reference_pattern());
                }
                match compile(pattern) {
                    Ok(re) => {
                        let numbered = replace_numbered_references(&re, predicate.as_str(), self.right_hand_side.len());
                        Some(replace_tag_references(numbered.as_str()))
                    },
                    Err(_) => Some(replace_tag_references(predicate.as_str())),
                }
            },
        }
    }
}

} // verus!
