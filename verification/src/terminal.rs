//! The terminal symbols (tokens) of a grammar specification and ordered
//! sets of them.

use vstd::prelude::*;
use vstd::string::StringExecFns;

use crate::location::{locations_view, snapshot_all, Location, LocationView};
use crate::order::{bytes_lt, compare_bytes, lemma_bytes_order, Order};
use crate::symbol::Associativity;

verus! {

/// Abstract value of a [`TokenData`].
pub struct TokenDataView {
    pub name: Seq<char>,
    pub text: Seq<char>,
    pub defined_at: LocationView,
    pub used_at: Seq<LocationView>,
    pub associativity: Associativity,
    pub precedence: u16,
}

/// What a grammar specification says of a token: its name, the text that
/// defines it, where it was defined and used, and how it takes part in
/// conflict resolution.
#[derive(Debug)]
pub struct TokenData {
    name: String,
    text: String,
    defined_at: Location,
    used_at: Vec<Location>,
    associativity: Associativity,
    precedence: u16,
}

impl View for TokenData {
    type V = TokenDataView;

    closed spec fn view(&self) -> TokenDataView {
        TokenDataView {
            name: self.name@,
            text: self.text@,
            defined_at: self.defined_at@,
            used_at: locations_view(self.used_at@),
            associativity: self.associativity,
            precedence: self.precedence,
        }
    }
}

/// The data of a token that has just been defined.
pub open spec fn fresh_token_data(name: Seq<char>, text: Seq<char>, defined_at: LocationView) -> TokenDataView {
    TokenDataView {
        name,
        text,
        defined_at,
        used_at: Seq::empty(),
        associativity: Associativity::NonAssoc,
        precedence: 0,
    }
}

impl TokenData {
    pub fn new(name: &str, text: &str, defined_at: &Location) -> (r: Self)
        ensures
            r@ == fresh_token_data(name@, text@, defined_at@),
    {
        let r = TokenData {
            name: name.to_string(),
            text: text.to_string(),
            defined_at: defined_at.snapshot(),
            used_at: Vec::new(),
            associativity: Associativity::NonAssoc,
            precedence: 0,
        };
        proof {
            assert(locations_view(r.used_at@) =~= Seq::<LocationView>::empty());
        }
        r
    }

    /// A copy of this data.
    pub fn snapshot(&self) -> (r: Self)
        ensures
            r@ == self@,
    {
        TokenData {
            name: self.name.clone(),
            text: self.text.clone(),
            defined_at: self.defined_at.snapshot(),
            used_at: snapshot_all(&self.used_at),
            associativity: self.associativity,
            precedence: self.precedence,
        }
    }

    fn add_used_at(&mut self, used_at: &Location)
        ensures
            final(self)@ == (TokenDataView { used_at: old(self)@.used_at.push(used_at@), ..old(self)@ }),
    {
        self.used_at.push(used_at.snapshot());
        proof {
            assert(locations_view(self.used_at@) =~= locations_view(old(self).used_at@).push(used_at@));
        }
    }

    fn set_associativity(&mut self, associativity: Associativity)
        ensures
            final(self)@ == (TokenDataView { associativity, ..old(self)@ }),
    {
        self.associativity = associativity;
    }

    fn set_precedence(&mut self, precedence: u16)
        ensures
            final(self)@ == (TokenDataView { precedence, ..old(self)@ }),
    {
        self.precedence = precedence;
    }
}

/// Abstract value of a [`Token`].
pub enum TokenView {
    Literal(TokenDataView),
    Regex(TokenDataView),
    EndToken,
}

/// A terminal symbol: a token defined by a literal, one defined by a
/// regular expression, or the end of the input.
#[derive(Debug)]
pub enum Token {
    Literal(TokenData),
    Regex(TokenData),
    EndToken,
}

impl View for Token {
    type V = TokenView;

    open spec fn view(&self) -> TokenView {
        match self {
            Token::Literal(data) => TokenView::Literal(data@),
            Token::Regex(data) => TokenView::Regex(data@),
            Token::EndToken => TokenView::EndToken,
        }
    }
}

/// The data of a token other than the end token.
pub open spec fn token_data(t: TokenView) -> TokenDataView
    recommends
        !(t is EndToken),
{
    match t {
        TokenView::Literal(data) => data,
        TokenView::Regex(data) => data,
        TokenView::EndToken => arbitrary(),
    }
}

/// Tokens are ordered first by kind (literal, regex, end) ...
pub open spec fn token_rank(t: TokenView) -> nat {
    match t {
        TokenView::Literal(_) => 0,
        TokenView::Regex(_) => 1,
        TokenView::EndToken => 2,
    }
}

/// ... and then by the bytes of their names.
pub open spec fn token_name_bytes(t: TokenView) -> Seq<u8> {
    match t {
        TokenView::Literal(data) => vstd::utf8::encode_utf8(data.name),
        TokenView::Regex(data) => vstd::utf8::encode_utf8(data.name),
        TokenView::EndToken => Seq::empty(),
    }
}

/// `a` comes before `b` in the order of tokens.
pub open spec fn token_lt(a: TokenView, b: TokenView) -> bool {
    token_rank(a) < token_rank(b) || (token_rank(a) == token_rank(b) && bytes_lt(
        token_name_bytes(a),
        token_name_bytes(b),
    ))
}

/// `a` and `b` are the same token: of one kind and with one name.
pub open spec fn same_token(a: TokenView, b: TokenView) -> bool {
    token_rank(a) == token_rank(b) && token_name_bytes(a) == token_name_bytes(b)
}

/// The order of tokens is a strict total order whose equivalence is `same_token`.
pub proof fn lemma_token_order(a: TokenView, b: TokenView, c: TokenView)
    ensures
        !token_lt(a, a),
        token_lt(a, b) ==> !token_lt(b, a),
        token_lt(a, b) ==> !same_token(a, b),
        !token_lt(a, b) && !token_lt(b, a) ==> same_token(a, b),
        token_lt(a, b) && token_lt(b, c) ==> token_lt(a, c),
{
    lemma_bytes_order(token_name_bytes(a), token_name_bytes(b), token_name_bytes(c));
    lemma_bytes_order(token_name_bytes(b), token_name_bytes(a), token_name_bytes(c));
}

impl Token {
    pub fn new_literal_token(name: &str, text: &str, defined_at: &Location) -> (r: Self)
        ensures
            r@ == TokenView::Literal(fresh_token_data(name@, text@, defined_at@)),
    {
        Token::Literal(TokenData::new(name, text, defined_at))
    }

    pub fn new_regex_token(name: &str, text: &str, defined_at: &Location) -> (r: Self)
        ensures
            r@ == TokenView::Regex(fresh_token_data(name@, text@, defined_at@)),
    {
        Token::Regex(TokenData::new(name, text, defined_at))
    }

    /// A copy of this token.
    pub fn snapshot(&self) -> (r: Self)
        ensures
            r@ == self@,
    {
        match self {
            Token::Literal(data) => Token::Literal(data.snapshot()),
            Token::Regex(data) => Token::Regex(data.snapshot()),
            Token::EndToken => Token::EndToken,
        }
    }

    pub fn name(&self) -> (r: &str)
        requires
            !(self@ is EndToken),
        ensures
            r@ == token_data(self@).name,
    {
        match self {
            Token::Literal(data) => data.name.as_str(),
            Token::Regex(data) => data.name.as_str(),
            Token::EndToken => vstd::pervasive::unreached(),
        }
    }

    pub fn text(&self) -> (r: &str)
        requires
            !(self@ is EndToken),
        ensures
            r@ == token_data(self@).text,
    {
        match self {
            Token::Literal(data) => data.text.as_str(),
            Token::Regex(data) => data.text.as_str(),
            Token::EndToken => vstd::pervasive::unreached(),
        }
    }

    pub fn defined_at(&self) -> (r: &Location)
        requires
            !(self@ is EndToken),
        ensures
            r@ == token_data(self@).defined_at,
    {
        match self {
            Token::Literal(data) => &data.defined_at,
            Token::Regex(data) => &data.defined_at,
            Token::EndToken => vstd::pervasive::unreached(),
        }
    }

    pub fn associativity(&self) -> (r: Associativity)
        ensures
            r == match self@ {
                TokenView::EndToken => Associativity::NonAssoc,
                _ => token_data(self@).associativity,
            },
    {
        match self {
            Token::Literal(data) => data.associativity,
            Token::Regex(data) => data.associativity,
            Token::EndToken => Associativity::NonAssoc,
        }
    }

    pub fn precedence(&self) -> (r: u16)
        ensures
            r == match self@ {
                TokenView::EndToken => 0,
                _ => token_data(self@).precedence,
            },
    {
        match self {
            Token::Literal(data) => data.precedence,
            Token::Regex(data) => data.precedence,
            Token::EndToken => 0,
        }
    }

    pub fn is_unused(&self) -> (r: bool)
        ensures
            r == match self@ {
                TokenView::EndToken => false,
                _ => token_data(self@).used_at.len() == 0,
            },
    {
        match self {
            Token::Literal(data) => data.used_at.len() == 0,
            Token::Regex(data) => data.used_at.len() == 0,
            Token::EndToken => false,
        }
    }

    pub fn associativity_and_precedence(&self) -> (r: (Associativity, u16))
        ensures
            r == match self@ {
                TokenView::EndToken => (Associativity::NonAssoc, 0u16),
                _ => (token_data(self@).associativity, token_data(self@).precedence),
            },
    {
        match self {
            Token::Literal(data) => (data.associativity, data.precedence),
            Token::Regex(data) => (data.associativity, data.precedence),
            Token::EndToken => (Associativity::NonAssoc, 0),
        }
    }

    pub fn add_used_at(&mut self, used_at: &Location)
        requires
            !(old(self)@ is EndToken),
        ensures
            token_rank(final(self)@) == token_rank(old(self)@),
            token_data(final(self)@) == (TokenDataView {
                used_at: token_data(old(self)@).used_at.push(used_at@),
                ..token_data(old(self)@)
            }),
    {
        match self {
            Token::Literal(data) => data.add_used_at(used_at),
            Token::Regex(data) => data.add_used_at(used_at),
            Token::EndToken => {},
        }
    }

    pub fn set_associativity(&mut self, associativity: Associativity)
        requires
            !(old(self)@ is EndToken),
        ensures
            token_rank(final(self)@) == token_rank(old(self)@),
            token_data(final(self)@) == (TokenDataView { associativity, ..token_data(old(self)@) }),
    {
        match self {
            Token::Literal(data) => data.set_associativity(associativity),
            Token::Regex(data) => data.set_associativity(associativity),
            Token::EndToken => {},
        }
    }

    pub fn set_precedence(&mut self, precedence: u16)
        requires
            !(old(self)@ is EndToken),
            precedence > 0,
        ensures
            token_rank(final(self)@) == token_rank(old(self)@),
            token_data(final(self)@) == (TokenDataView { precedence, ..token_data(old(self)@) }),
    {
        match self {
            Token::Literal(data) => data.set_precedence(precedence),
            Token::Regex(data) => data.set_precedence(precedence),
            Token::EndToken => {},
        }
    }

    pub fn precedence_has_been_set(&self) -> (r: bool)
        ensures
            r == match self@ {
                TokenView::EndToken => false,
                _ => token_data(self@).precedence > 0,
            },
    {
        match self {
            Token::Literal(data) => data.precedence > 0,
            Token::Regex(data) => data.precedence > 0,
            Token::EndToken => false,
        }
    }

    fn rank(&self) -> (r: u8)
        ensures
            r == token_rank(self@),
    {
        match self {
            Token::Literal(_) => 0,
            Token::Regex(_) => 1,
            Token::EndToken => 2,
        }
    }

    fn name_bytes(&self) -> (r: &[u8])
        ensures
            r@ == token_name_bytes(self@),
    {
        match self {
            Token::Literal(data) => data.name.as_str().as_bytes(),
            Token::Regex(data) => data.name.as_str().as_bytes(),
            Token::EndToken => {
                proof {
                    reveal_strlit("");
                }
                "".as_bytes()
            },
        }
    }

    /// Where this token stands relative to `other` in the order of tokens.
    pub fn order(&self, other: &Token) -> (r: Order)
        ensures
            (r == Order::Less) == token_lt(self@, other@),
            (r == Order::Equal) == same_token(self@, other@),
            (r == Order::Greater) == token_lt(other@, self@),
    {
        let a = self.rank();
        let b = other.rank();
        if a < b {
            Order::Less
        } else if b < a {
            Order::Greater
        } else {
            compare_bytes(self.name_bytes(), other.name_bytes())
        }
    }
}

/// The abstract values of a sequence of tokens.
pub open spec fn tokens_view(tokens: Seq<Token>) -> Seq<TokenView> {
    tokens.map_values(|t: Token| t@)
}

/// The tokens of `s` come in strictly increasing order, so no token occurs twice.
pub open spec fn strictly_ordered(s: Seq<TokenView>) -> bool {
    forall|i: int, j: int| 0 <= i < j < s.len() ==> token_lt(#[trigger] s[i], #[trigger] s[j])
}

/// `s` holds a token that is the same as `t`.
pub open spec fn has_token(s: Seq<TokenView>, t: TokenView) -> bool {
    exists|i: int| 0 <= i < s.len() && same_token(#[trigger] s[i], t)
}

/// An ordered set of tokens, iterated in the order of tokens.
#[derive(Debug)]
pub struct TokenSet {
    tokens: Vec<Token>,
}

impl View for TokenSet {
    type V = Seq<TokenView>;

    closed spec fn view(&self) -> Seq<TokenView> {
        tokens_view(self.tokens@)
    }
}

/// Copies of the tokens of `tokens`.
fn snapshot_tokens(tokens: &Vec<Token>) -> (r: Vec<Token>)
    ensures
        tokens_view(r@) == tokens_view(tokens@),
{
    let mut r: Vec<Token> = Vec::new();
    let mut i: usize = 0;
    while i < tokens.len()
        invariant
            i <= tokens@.len(),
            r@.len() == i,
            tokens_view(r@) == tokens_view(tokens@.take(i as int)),
        decreases tokens@.len() - i,
    {
        let ghost before = r@;
        r.push(tokens[i].snapshot());
        proof {
            assert forall|j: int| 0 <= j < r@.len() implies r@[j]@ == tokens@.take(i + 1)[j]@ by {
                if j < i {
                    assert(tokens_view(before)[j] == tokens_view(tokens@.take(i as int))[j]);
                }
            }
            assert(tokens_view(r@) =~= tokens_view(tokens@.take(i + 1)));
        }
        i = i + 1;
    }
    proof {
        assert(tokens@.take(i as int) =~= tokens@);
    }
    r
}

impl TokenSet {
    /// The set's tokens are in strictly increasing order.
    pub open spec fn wf(&self) -> bool {
        strictly_ordered(self@)
    }

    pub fn new() -> (r: Self)
        ensures
            r.wf(),
            r@ == Seq::<TokenView>::empty(),
    {
        let r = TokenSet { tokens: Vec::new() };
        proof {
            assert(r@ =~= Seq::<TokenView>::empty());
        }
        r
    }

    pub fn len(&self) -> (r: usize)
        ensures
            r == self@.len(),
    {
        self.tokens.len()
    }

    /// A copy of this set.
    pub fn snapshot(&self) -> (r: Self)
        ensures
            r@ == self@,
    {
        TokenSet { tokens: snapshot_tokens(&self.tokens) }
    }

    /// The position of the first token of the set that does not come before `token`.
    fn lower_bound(&self, token: &Token) -> (r: usize)
        requires
            self.wf(),
        ensures
            r <= self@.len(),
            forall|j: int| 0 <= j < r ==> token_lt(#[trigger] self@[j], token@),
            r < self@.len() ==> !token_lt(self@[r as int], token@),
    {
        let mut i: usize = 0;
        while i < self.tokens.len()
            invariant
                i <= self@.len(),
                self@.len() == self.tokens@.len(),
                forall|j: int| 0 <= j < i ==> token_lt(#[trigger] self@[j], token@),
            decreases self@.len() - i,
        {
            proof {
                assert(self@[i as int] == self.tokens@[i as int]@);
            }
            match self.tokens[i].order(token) {
                Order::Less => {},
                _ => {
                    return i;
                },
            }
            i = i + 1;
        }
        i
    }

    /// Where `token` is in the set: its position, if the set holds it.
    fn find(&self, token: &Token) -> (r: Option<usize>)
        requires
            self.wf(),
        ensures
            match r {
                Some(p) => p < self@.len() && same_token(self@[p as int], token@),
                None => !has_token(self@, token@),
            },
    {
        let p = self.lower_bound(token);
        if p < self.tokens.len() {
            proof {
                assert(self@[p as int] == self.tokens@[p as int]@);
            }
            match self.tokens[p].order(token) {
                Order::Equal => {
                    return Some(p);
                },
                _ => {},
            }
        }
        proof {
            assert forall|i: int| 0 <= i < self@.len() implies !same_token(#[trigger] self@[i], token@) by {
                lemma_token_order(self@[i], token@, token@);
                if i > p {
                    lemma_token_order(self@[p as int], self@[i], token@);
                    lemma_token_order(self@[p as int], token@, token@);
                }
            }
        }
        None
    }

    pub fn contains(&self, token: &Token) -> (r: bool)
        requires
            self.wf(),
        ensures
            r == has_token(self@, token@),
    {
        match self.find(token) {
            Some(_) => true,
            None => false,
        }
    }

    /// Adds `token` unless the set holds it already; says whether it was added.
    pub fn insert(&mut self, token: &Token) -> (r: bool)
        requires
            old(self).wf(),
        ensures
            final(self).wf(),
            r == !has_token(old(self)@, token@),
            r ==> exists|p: int| 0 <= p <= old(self)@.len() && final(self)@ == old(self)@.insert(p, token@),
            !r ==> final(self)@ == old(self)@,
    {
        let p = self.lower_bound(token);
        if p < self.tokens.len() {
            proof {
                assert(self@[p as int] == self.tokens@[p as int]@);
            }
            match self.tokens[p].order(token) {
                Order::Equal => {
                    return false;
                },
                _ => {},
            }
        }
        let ghost old_view = self@;
        proof {
            assert forall|i: int| 0 <= i < old_view.len() implies !same_token(#[trigger] old_view[i], token@) by {
                lemma_token_order(old_view[i], token@, token@);
                if i > p {
                    lemma_token_order(old_view[p as int], old_view[i], token@);
                    lemma_token_order(old_view[p as int], token@, token@);
                }
            }
        }
        self.tokens.insert(p, token.snapshot());
        proof {
            let nv = old_view.insert(p as int, token@);
            assert(self@ =~= nv) by {
                assert forall|k: int| 0 <= k < self@.len() implies self@[k] == nv[k] by {
                    assert(self@[k] == self.tokens@[k]@);
                    if k < p {
                        assert(self.tokens@[k] == old(self).tokens@[k]);
                        assert(old_view[k] == old(self).tokens@[k]@);
                    } else if k > p {
                        assert(self.tokens@[k] == old(self).tokens@[k - 1]);
                        assert(old_view[k - 1] == old(self).tokens@[k - 1]@);
                    }
                }
            }
            assert forall|i: int, j: int| 0 <= i < j < nv.len() implies token_lt(#[trigger] nv[i], #[trigger] nv[j]) by {
                if j == p {
                    assert(nv[i] == old_view[i]);
                } else if i == p {
                    assert(nv[j] == old_view[j - 1]);
                    lemma_token_order(old_view[p as int], token@, token@);
                    lemma_token_order(token@, old_view[p as int], old_view[j - 1]);
                } else if j < p {
                    assert(nv[i] == old_view[i] && nv[j] == old_view[j]);
                } else if i > p {
                    assert(nv[i] == old_view[i - 1] && nv[j] == old_view[j - 1]);
                } else {
                    assert(nv[i] == old_view[i] && nv[j] == old_view[j - 1]);
                }
            }
        }
        true
    }

    /// Removes `token` if the set holds it; says whether it did.
    pub fn remove(&mut self, token: &Token) -> (r: bool)
        requires
            old(self).wf(),
        ensures
            final(self).wf(),
            r == has_token(old(self)@, token@),
            r ==> exists|p: int|
                0 <= p < old(self)@.len() && same_token(old(self)@[p], token@) && final(self)@
                    == old(self)@.remove(p),
            !r ==> final(self)@ == old(self)@,
            forall|t: TokenView|
                #![trigger final(self)@.contains(t)]
                final(self)@.contains(t) <==> old(self)@.contains(t) && !same_token(t, token@),
    {
        match self.find(token) {
            Some(p) => {
                let ghost old_view = self@;
                let _ = self.tokens.remove(p);
                proof {
                    let nv = old_view.remove(p as int);
                    assert(self@ =~= nv) by {
                        assert forall|k: int| 0 <= k < self@.len() implies self@[k] == nv[k] by {
                            assert(self@[k] == self.tokens@[k]@);
                            if k < p {
                                assert(old_view[k] == old(self).tokens@[k]@);
                            } else {
                                assert(old_view[k + 1] == old(self).tokens@[k + 1]@);
                            }
                        }
                    }
                    assert forall|i: int, j: int| 0 <= i < j < nv.len() implies token_lt(#[trigger] nv[i], #[trigger] nv[j]) by {
                        if j < p {
                            assert(nv[i] == old_view[i] && nv[j] == old_view[j]);
                        } else if i >= p {
                            assert(nv[i] == old_view[i + 1] && nv[j] == old_view[j + 1]);
                        } else {
                            assert(nv[i] == old_view[i] && nv[j] == old_view[j + 1]);
                        }
                    }
                    assert forall|t: TokenView| #![trigger self@.contains(t)]
                        self@.contains(t) <==> old_view.contains(t) && !same_token(t, token@) by {
                        if self@.contains(t) {
                            let k = choose|k: int| 0 <= k < nv.len() && nv[k] == t;
                            if k < p {
                                assert(old_view[k] == t);
                                lemma_token_order(old_view[k], old_view[p as int], t);
                            } else {
                                assert(old_view[k + 1] == t);
                                lemma_token_order(old_view[p as int], old_view[k + 1], t);
                            }
                        }
                        if old_view.contains(t) && !same_token(t, token@) {
                            let k = choose|k: int| 0 <= k < old_view.len() && old_view[k] == t;
                            assert(k != p);
                            if k < p {
                                assert(nv[k] == t);
                            } else {
                                assert(nv[k - 1] == t);
                            }
                        }
                    }
                }
                true
            },
            None => {
                proof {
                    assert forall|t: TokenView| #![trigger self@.contains(t)]
                        self@.contains(t) implies !same_token(t, token@) by {
                        let k = choose|k: int| 0 <= k < self@.len() && self@[k] == t;
                        assert(!same_token(self@[k], token@));
                    }
                }
                false
            },
        }
    }

    /// Copies of the set's tokens, in order.
    pub fn iter(&self) -> (r: Vec<Token>)
        ensures
            tokens_view(r@) == self@,
    {
        snapshot_tokens(&self.tokens)
    }
}

/// Membership of a token in `s`, as a predicate.
pub open spec fn in_tokens(s: Seq<TokenView>) -> spec_fn(TokenView) -> bool {
    |t: TokenView| has_token(s, t)
}

/// Absence of a token from `s`, as a predicate.
pub open spec fn not_in_tokens(s: Seq<TokenView>) -> spec_fn(TokenView) -> bool {
    |t: TokenView| !has_token(s, t)
}

/// `s` holds no end token.
pub open spec fn all_named(s: Seq<TokenView>) -> bool {
    forall|i: int| 0 <= i < s.len() ==> !(#[trigger] s[i] is EndToken)
}

/// The names of the tokens of `s`, in order, separated by `sep`.
pub open spec fn names_joined(s: Seq<TokenView>, sep: Seq<char>) -> Seq<char>
    decreases s.len(),
{
    if s.len() == 0 {
        Seq::empty()
    } else if s.len() == 1 {
        token_data(s[0]).name
    } else {
        names_joined(s.drop_last(), sep) + sep + token_data(s.last()).name
    }
}

impl TokenSet {
    /// The set's tokens that `other` also holds, in order.
    pub fn intersection(&self, other: &TokenSet) -> (r: Vec<Token>)
        requires
            self.wf(),
            other.wf(),
        ensures
            tokens_view(r@) == self@.filter(in_tokens(other@)),
    {
        self.filtered(other, true)
    }

    /// The set's tokens that `other` does not hold, in order.
    pub fn difference(&self, other: &TokenSet) -> (r: Vec<Token>)
        requires
            self.wf(),
            other.wf(),
        ensures
            tokens_view(r@) == self@.filter(not_in_tokens(other@)),
    {
        self.filtered(other, false)
    }

    fn filtered(&self, other: &TokenSet, keep_shared: bool) -> (r: Vec<Token>)
        requires
            self.wf(),
            other.wf(),
        ensures
            keep_shared ==> tokens_view(r@) == self@.filter(in_tokens(other@)),
            !keep_shared ==> tokens_view(r@) == self@.filter(not_in_tokens(other@)),
    {
        let ghost pred = if keep_shared { in_tokens(other@) } else { not_in_tokens(other@) };
        let mut r: Vec<Token> = Vec::new();
        let mut i: usize = 0;
        proof {
            reveal(Seq::filter);
            assert(self@.take(0) =~= Seq::<TokenView>::empty());
            assert(tokens_view(r@) =~= self@.take(0).filter(pred));
        }
        while i < self.tokens.len()
            invariant
                i <= self@.len(),
                self@.len() == self.tokens@.len(),
                other.wf(),
                pred == if keep_shared { in_tokens(other@) } else { not_in_tokens(other@) },
                tokens_view(r@) == self@.take(i as int).filter(pred),
            decreases self@.len() - i,
        {
            proof {
                assert(self@[i as int] == self.tokens@[i as int]@);
                reveal(Seq::filter);
                assert(self@.take(i + 1).drop_last() =~= self@.take(i as int));
                assert(self@.take(i + 1).last() == self@[i as int]);
            }
            let shared = other.contains(&self.tokens[i]);
            if shared == keep_shared {
                let ghost before = r@;
                r.push(self.tokens[i].snapshot());
                proof {
                    assert(tokens_view(r@) =~= tokens_view(before).push(self@[i as int]));
                }
            }
            i = i + 1;
        }
        proof {
            assert(self@.take(i as int) =~= self@);
        }
        r
    }

    /// Adds to this set each token of `other` that it does not hold yet.
    pub fn union_with(&mut self, other: &TokenSet) -> (r: bool)
        requires
            old(self).wf(),
            other.wf(),
        ensures
            final(self).wf(),
            r == exists|k: int| 0 <= k < other@.len() && !has_token(old(self)@, #[trigger] other@[k]),
            forall|t: TokenView|
                #![trigger final(self)@.contains(t)]
                final(self)@.contains(t) <==> old(self)@.contains(t) || (other@.contains(t)
                    && !has_token(old(self)@, t)),
    {
        let ghost start = self@;
        let mut grew = false;
        let mut i: usize = 0;
        while i < other.tokens.len()
            invariant
                i <= other@.len(),
                other@.len() == other.tokens@.len(),
                other.wf(),
                self.wf(),
                grew == exists|k: int| 0 <= k < i && !has_token(start, #[trigger] other@[k]),
                forall|t: TokenView|
                    #![trigger self@.contains(t)]
                    self@.contains(t) <==> start.contains(t) || (other@.take(i as int).contains(t)
                        && !has_token(start, t)),
            decreases other@.len() - i,
        {
            let ghost before = self@;
            let ghost x = other@[i as int];
            proof {
                assert(x == other.tokens@[i as int]@);
            }
            let added = self.insert(&other.tokens[i]);
            if added {
                grew = true;
            }
            proof {
                assert(added == !has_token(start, x)) by {
                    if !added && !has_token(start, x) {
                        let m = choose|m: int| 0 <= m < before.len() && same_token(before[m], x);
                        assert(before.contains(before[m]));
                        let y = before[m];
                        if !start.contains(y) {
                            assert(other@.take(i as int).contains(y));
                            let j = choose|j: int| 0 <= j < i && other@.take(i as int)[j] == y;
                            assert(other@[j] == y);
                            lemma_token_order(y, x, x);
                        } else {
                            let k = choose|k: int| 0 <= k < start.len() && start[k] == y;
                            assert(same_token(start[k], x));
                        }
                    }
                    if added && has_token(start, x) {
                        let k = choose|k: int| 0 <= k < start.len() && same_token(start[k], x);
                        assert(before.contains(start[k]));
                        let m = choose|m: int| 0 <= m < before.len() && before[m] == start[k];
                        assert(same_token(before[m], x));
                    }
                }
                assert(grew == exists|k: int| 0 <= k < i + 1 && !has_token(start, #[trigger] other@[k])) by {
                    if !has_token(start, x) {
                        assert(0 <= i < i + 1 && !has_token(start, other@[i as int]));
                    }
                }
                assert(other@.take(i + 1) =~= other@.take(i as int).push(x));
                if added {
                    let p = choose|p: int| 0 <= p <= before.len() && self@ == before.insert(p, x);
                    assert forall|t: TokenView| #![trigger self@.contains(t)]
                        self@.contains(t) == (before.contains(t) || t == x) by {
                        if self@.contains(t) {
                            let k = choose|k: int| 0 <= k < self@.len() && self@[k] == t;
                            if k < p {
                                assert(before[k] == t);
                            } else if k > p {
                                assert(before[k - 1] == t);
                            }
                        }
                        if before.contains(t) {
                            let k = choose|k: int| 0 <= k < before.len() && before[k] == t;
                            if k < p {
                                assert(self@[k] == t);
                            } else {
                                assert(self@[k + 1] == t);
                            }
                        }
                        if t == x {
                            assert(self@[p] == x);
                        }
                    }
                    assert(!has_token(start, x)) by {
                        if has_token(start, x) {
                            let k = choose|k: int| 0 <= k < start.len() && same_token(start[k], x);
                            assert(before.contains(start[k]));
                            let m = choose|m: int| 0 <= m < before.len() && before[m] == start[k];
                            assert(same_token(before[m], x));
                        }
                    }
                } else {
                    assert(self@ == before);
                    assert(has_token(before, x));
                    if !has_token(start, x) {
                        let m = choose|m: int| 0 <= m < before.len() && same_token(before[m], x);
                        assert(before.contains(before[m]));
                        let y = before[m];
                        if !start.contains(y) {
                            assert(other@.take(i as int).contains(y));
                            let j = choose|j: int| 0 <= j < i && other@.take(i as int)[j] == y;
                            assert(other@[j] == y);
                            lemma_token_order(y, x, x);
                            assert(false);
                        } else {
                            let k = choose|k: int| 0 <= k < start.len() && start[k] == y;
                            assert(same_token(start[k], x));
                            assert(false);
                        }
                    }
                }
                assert forall|t: TokenView| #![trigger self@.contains(t)]
                    self@.contains(t) <==> start.contains(t) || (other@.take(i + 1).contains(t)
                        && !has_token(start, t)) by {
                    let s1 = other@.take(i + 1);
                    let s0 = other@.take(i as int);
                    assert(s1.contains(t) == (s0.contains(t) || t == x)) by {
                        if s1.contains(t) {
                            let j = choose|j: int| 0 <= j < s1.len() && s1[j] == t;
                            if j < i {
                                assert(s0[j] == t);
                            }
                        }
                        if s0.contains(t) {
                            let j = choose|j: int| 0 <= j < s0.len() && s0[j] == t;
                            assert(s1[j] == t);
                        }
                        if t == x {
                            assert(s1[i as int] == x);
                        }
                    }
                    assert(before.contains(t) <==> start.contains(t) || (other@.take(i as int).contains(t)
                        && !has_token(start, t)));
                    if !added {
                        if t == x && !has_token(start, x) {
                            assert(before.contains(x));
                        }
                    }
                }
            }
            i = i + 1;
        }
        proof {
            assert(other@.take(i as int) =~= other@);
        }
        grew
    }

    /// The tokens of this set and of `other`, in order; where both hold the
    /// same token, this set's copy.
    pub fn union(&self, other: &TokenSet) -> (r: Vec<Token>)
        requires
            self.wf(),
            other.wf(),
        ensures
            strictly_ordered(tokens_view(r@)),
            forall|t: TokenView|
                #![trigger tokens_view(r@).contains(t)]
                tokens_view(r@).contains(t) <==> self@.contains(t) || (other@.contains(t)
                    && !has_token(self@, t)),
    {
        let mut set = self.snapshot();
        let _ = set.union_with(other);
        set.tokens
    }

    /// The names of the set's tokens, in order, separated by `sep`.
    fn names_joined_by(&self, sep: &str) -> (r: String)
        requires
            all_named(self@),
        ensures
            r@ == names_joined(self@, sep@),
    {
        let mut r = String::new();
        let mut i: usize = 0;
        while i < self.tokens.len()
            invariant
                i <= self@.len(),
                self@.len() == self.tokens@.len(),
                all_named(self@),
                r@ == names_joined(self@.take(i as int), sep@),
            decreases self@.len() - i,
        {
            proof {
                assert(self@[i as int] == self.tokens@[i as int]@);
                assert(self@.take(i + 1).drop_last() =~= self@.take(i as int));
                assert(self@.take(i + 1).last() == self@[i as int]);
                assert(self@.take(i + 1)[0] == self@[0]);
            }
            if i > 0 {
                r.append(sep);
            }
            r.append(self.tokens[i].name());
            i = i + 1;
        }
        proof {
            assert(self@.take(i as int) =~= self@);
        }
        r
    }

    /// The set written as a call of the `btree_set!` macro.
    pub fn formated_as_macro_call(&self) -> (r: String)
        requires
            all_named(self@),
        ensures
            r@ == "btree_set!["@ + names_joined(self@, ", "@) + "]"@,
    {
        let mut r = String::from_str("btree_set![");
        r.append(self.names_joined_by(", ").as_str());
        r.append("]");
        r
    }

    /// The names of the set's tokens separated by `|`.
    pub fn formated_as_or_list(&self) -> (r: String)
        requires
            all_named(self@),
        ensures
            r@ == names_joined(self@, " | "@),
    {
        self.names_joined_by(" | ")
    }

    /// The set as text, such as `TokenSet{A, B}`.
    pub fn to_string(&self) -> (r: String)
        requires
            all_named(self@),
        ensures
            r@ == "TokenSet{"@ + names_joined(self@, ", "@) + "}"@,
    {
        let mut r = String::from_str("TokenSet{");
        r.append(self.names_joined_by(", ").as_str());
        r.append("}");
        r
    }
}

/// A subsequence picked by `pred` from a strictly ordered sequence is strictly ordered.
pub proof fn lemma_filter_ordered(s: Seq<TokenView>, pred: spec_fn(TokenView) -> bool)
    requires
        strictly_ordered(s),
    ensures
        strictly_ordered(s.filter(pred)),
        forall|t: TokenView| s.filter(pred).contains(t) ==> s.contains(t) && pred(t),
    decreases s.len(),
{
    reveal(Seq::filter);
    if s.len() > 0 {
        let sub = s.drop_last();
        assert(strictly_ordered(sub)) by {
            assert forall|i: int, j: int| 0 <= i < j < sub.len() implies token_lt(#[trigger] sub[i], #[trigger] sub[j]) by {
                assert(sub[i] == s[i] && sub[j] == s[j]);
            }
        }
        lemma_filter_ordered(sub, pred);
        let f = sub.filter(pred);
        assert forall|t: TokenView| f.contains(t) implies s.contains(t) by {
            assert(sub.contains(t));
            let k = choose|k: int| 0 <= k < sub.len() && sub[k] == t;
            assert(s[k] == t);
        }
        if pred(s.last()) {
            let g = f.push(s.last());
            assert forall|i: int, j: int| 0 <= i < j < g.len() implies token_lt(#[trigger] g[i], #[trigger] g[j]) by {
                if j == g.len() - 1 {
                    assert(f.contains(g[i]));
                    assert(sub.contains(g[i]));
                    let k = choose|k: int| 0 <= k < sub.len() && sub[k] == g[i];
                    assert(s[k] == g[i]);
                    assert(s[s.len() - 1] == s.last());
                }
            }
            assert forall|t: TokenView| g.contains(t) implies s.contains(t) && pred(t) by {
                if t != s.last() {
                    let k = choose|k: int| 0 <= k < g.len() && g[k] == t;
                    assert(f[k] == t);
                } else {
                    assert(s[s.len() - 1] == t);
                }
            }
        }
    }
}

impl TokenSet {
    /// Removes from this set every token that `other` holds.
    pub fn remove_all(&mut self, other: &TokenSet)
        requires
            old(self).wf(),
            other.wf(),
        ensures
            final(self).wf(),
            final(self)@ == old(self)@.filter(not_in_tokens(other@)),
    {
        let kept = self.difference(other);
        proof {
            lemma_filter_ordered(self@, not_in_tokens(other@));
        }
        self.tokens = kept;
    }
}

impl TokenSet {
    /// The set of the tokens of this set that `other` also holds.
    pub fn intersection_set(&self, other: &TokenSet) -> (r: TokenSet)
        requires
            self.wf(),
            other.wf(),
        ensures
            r.wf(),
            r@ == self@.filter(in_tokens(other@)),
    {
        let tokens = self.intersection(other);
        proof {
            lemma_filter_ordered(self@, in_tokens(other@));
        }
        TokenSet { tokens }
    }
}

} // verus!
