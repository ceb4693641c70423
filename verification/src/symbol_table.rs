//! The symbol table of a grammar specification: its tags, tokens, non
//! terminals and skip rules, with the errors that defining them can meet.

use vstd::prelude::*;
use vstd::string::StringExecFns;

use crate::lexicon::str_equal;
use crate::location::Location;
use crate::name_map::{entry, has_name, lemma_entry_at, names_ordered, NameMap};
use crate::non_terminal::{fresh_non_terminal, non_terminal_data, NonTerminal, NonTerminalDataView, NonTerminalView};
use crate::symbol::Associativity;
use crate::tag::{fresh_tag, Tag, TagOrToken, TagOrTokenView, TagView};
use crate::terminal::{fresh_token_data, token_data, Token, TokenDataView, TokenView};

verus! {

/// A grammar symbol: a token or a non terminal.
#[derive(Debug)]
pub enum Symbol {
    Terminal(Token),
    NonTerminal(NonTerminal),
}

/// Abstract value of a [`Symbol`].
pub enum SymbolView {
    Terminal(TokenView),
    NonTerminal(NonTerminalView),
}

impl View for Symbol {
    type V = SymbolView;

    open spec fn view(&self) -> SymbolView {
        match self {
            Symbol::Terminal(t) => SymbolView::Terminal(t@),
            Symbol::NonTerminal(n) => SymbolView::NonTerminal(n@),
        }
    }
}

impl Symbol {
    pub fn is_non_terminal(&self) -> (r: bool)
        ensures
            r == (self@ is NonTerminal),
    {
        match self {
            Symbol::NonTerminal(_) => true,
            _ => false,
        }
    }
}

/// Why a definition was refused.
#[derive(Debug)]
pub enum SymbolError {
    /// The tag was already defined: the earlier tag.
    DuplicateTag(Tag),
    /// A token of that name was already defined: the earlier token.
    DuplicateToken(Token),
    /// A token with that text was already defined: the earlier token.
    DuplicateTokenDefinition(Token),
    /// A non terminal has the name of this token.
    ConflictsWithToken(Token),
    /// The skip rule was already given.
    DuplicateSkipRule(String),
}

/// Abstract value of a [`SymbolTable`].
pub struct SymbolTableView {
    pub tags: Seq<(Seq<char>, TagView)>,
    pub tokens: Seq<(Seq<char>, TokenView)>,
    /// The texts of the literal tokens, with the names of the tokens.
    pub literal_tokens: Seq<(Seq<char>, Seq<char>)>,
    /// The texts of the regex tokens, with the names of the tokens.
    pub regex_tokens: Seq<(Seq<char>, Seq<char>)>,
    pub non_terminals: Seq<(Seq<char>, NonTerminalView)>,
    pub skip_rules: Seq<Seq<char>>,
    pub next_precedence: u16,
    pub start_non_terminal: NonTerminalView,
    pub error_non_terminal: NonTerminalView,
}

/// The table of a specification that defines nothing yet.
pub open spec fn empty_symbol_table() -> SymbolTableView {
    SymbolTableView {
        tags: Seq::empty(),
        tokens: Seq::empty(),
        literal_tokens: Seq::empty(),
        regex_tokens: Seq::empty(),
        non_terminals: Seq::empty(),
        skip_rules: Seq::empty(),
        next_precedence: u16::MAX,
        start_non_terminal: NonTerminalView::Start(fresh_non_terminal("AAStart"@)),
        error_non_terminal: NonTerminalView::Error(fresh_non_terminal("AAError"@)),
    }
}

/// The symbols of a grammar specification, each kept under its name (and
/// each token also under its text).
#[derive(Debug)]
pub struct SymbolTable {
    tags: NameMap<Tag>,
    tokens: NameMap<Token>,
    literal_tokens: NameMap<String>,
    regex_tokens: NameMap<String>,
    non_terminals: NameMap<NonTerminal>,
    skip_rules: Vec<String>,
    next_precedence: u16,
    start_non_terminal: NonTerminal,
    error_non_terminal: NonTerminal,
}

impl View for SymbolTable {
    type V = SymbolTableView;

    closed spec fn view(&self) -> SymbolTableView {
        SymbolTableView {
            tags: self.tags@,
            tokens: self.tokens@,
            literal_tokens: self.literal_tokens@,
            regex_tokens: self.regex_tokens@,
            non_terminals: self.non_terminals@,
            skip_rules: self.skip_rules@.map_values(|s: String| s@),
            next_precedence: self.next_precedence,
            start_non_terminal: self.start_non_terminal@,
            error_non_terminal: self.error_non_terminal@,
        }
    }
}

impl SymbolTable {
    /// Each map keeps its entries in the order of their names.
    pub closed spec fn wf(&self) -> bool {
        &&& self.tags.wf()
        &&& self.tokens.wf()
        &&& self.literal_tokens.wf()
        &&& self.regex_tokens.wf()
        &&& self.non_terminals.wf()
        &&& forall|i: int| 0 <= i < self@.tokens.len() ==> !((#[trigger] self@.tokens[i]).1 is EndToken)
        &&& forall|i: int| 0 <= i < self@.non_terminals.len() ==> (#[trigger] self@.non_terminals[i]).1 is UserDefined
    }

    /// A well formed table keeps each of its maps in the order of the names,
    /// holds no end token and only non terminals that the specification names.
    pub proof fn lemma_wf(&self)
        requires
            self.wf(),
        ensures
            names_ordered(self@.tags),
            names_ordered(self@.tokens),
            names_ordered(self@.literal_tokens),
            names_ordered(self@.regex_tokens),
            names_ordered(self@.non_terminals),
            forall|i: int| 0 <= i < self@.tokens.len() ==> !((#[trigger] self@.tokens[i]).1 is EndToken),
            forall|i: int| 0 <= i < self@.non_terminals.len() ==> (#[trigger] self@.non_terminals[i]).1 is UserDefined,
    {
    }

    /// Copies of the tokens, in the order of their names.
    pub fn tokens(&self) -> (r: Vec<Token>)
        ensures
            r@.len() == self@.tokens.len(),
            forall|i: int| 0 <= i < r@.len() ==> (#[trigger] r@[i])@ == self@.tokens[i].1,
    {
        let mut r: Vec<Token> = Vec::new();
        let mut i: usize = 0;
        while i < self.tokens.len()
            invariant
                i <= self@.tokens.len(),
                r@.len() == i,
                forall|j: int| 0 <= j < i ==> (#[trigger] r@[j])@ == self@.tokens[j].1,
            decreases self@.tokens.len() - i,
        {
            r.push(self.tokens.value_at(i).snapshot());
            i = i + 1;
        }
        r
    }

    /// Copies of the tags, in the order of their names.
    pub fn tags(&self) -> (r: Vec<Tag>)
        ensures
            r@.len() == self@.tags.len(),
            forall|i: int| 0 <= i < r@.len() ==> (#[trigger] r@[i])@ == self@.tags[i].1,
    {
        let mut r: Vec<Tag> = Vec::new();
        let mut i: usize = 0;
        while i < self.tags.len()
            invariant
                i <= self@.tags.len(),
                r@.len() == i,
                forall|j: int| 0 <= j < i ==> (#[trigger] r@[j])@ == self@.tags[j].1,
            decreases self@.tags.len() - i,
        {
            r.push(self.tags.value_at(i).snapshot());
            i = i + 1;
        }
        r
    }

    /// Copies of the non terminals the specification names, in the order of
    /// their names.
    pub fn non_terminals(&self) -> (r: Vec<NonTerminal>)
        ensures
            r@.len() == self@.non_terminals.len(),
            forall|i: int| 0 <= i < r@.len() ==> (#[trigger] r@[i])@ == self@.non_terminals[i].1,
    {
        let mut r: Vec<NonTerminal> = Vec::new();
        let mut i: usize = 0;
        while i < self.non_terminals.len()
            invariant
                i <= self@.non_terminals.len(),
                r@.len() == i,
                forall|j: int| 0 <= j < i ==> (#[trigger] r@[j])@ == self@.non_terminals[j].1,
            decreases self@.non_terminals.len() - i,
        {
            r.push(self.non_terminals.value_at(i).snapshot());
            i = i + 1;
        }
        r
    }

    /// An empty table, whose first precedence is the highest.
    pub fn new() -> (r: Self)
        ensures
            r.wf(),
            r@.tags.len() == 0,
            r@.tokens.len() == 0,
            r@.literal_tokens.len() == 0,
            r@.regex_tokens.len() == 0,
            r@.non_terminals.len() == 0,
            r@.skip_rules.len() == 0,
            r@.next_precedence == u16::MAX,
            r@.start_non_terminal == NonTerminalView::Start(fresh_non_terminal("AAStart"@)),
            r@.error_non_terminal == NonTerminalView::Error(fresh_non_terminal("AAError"@)),
            r@ == empty_symbol_table(),
    {
        let r = SymbolTable {
            tags: NameMap::new(),
            tokens: NameMap::new(),
            literal_tokens: NameMap::new(),
            regex_tokens: NameMap::new(),
            non_terminals: NameMap::new(),
            skip_rules: Vec::new(),
            next_precedence: u16::MAX,
            start_non_terminal: NonTerminal::new_start("AAStart"),
            error_non_terminal: NonTerminal::new_error("AAError"),
        };
        proof {
            assert(r@.tags =~= Seq::empty());
            assert(r@.tokens =~= Seq::empty());
            assert(r@.literal_tokens =~= Seq::empty());
            assert(r@.regex_tokens =~= Seq::empty());
            assert(r@.non_terminals =~= Seq::empty());
            assert(r@.skip_rules =~= Seq::empty());
        }
        r
    }

    pub fn start_non_terminal(&self) -> (r: &NonTerminal)
        ensures
            r@ == self@.start_non_terminal,
    {
        &self.start_non_terminal
    }

    pub fn error_non_terminal(&self) -> (r: &NonTerminal)
        ensures
            r@ == self@.error_non_terminal,
    {
        &self.error_non_terminal
    }

    /// Defines the tag `name`. A tag of that name is replaced, and given back
    /// in the error.
    pub fn new_tag(&mut self, name: &str, defined_at: &Location) -> (r: Result<Tag, SymbolError>)
        requires
            old(self).wf(),
        ensures
            final(self).wf(),
            final(self)@ == (SymbolTableView { tags: final(self)@.tags, ..old(self)@ }),
            match r {
                Ok(tag) => tag@ == fresh_tag(name@, defined_at@) && !has_name(old(self)@.tags, name@)
                    && exists|p: int| 0 <= p <= old(self)@.tags.len() && final(self)@.tags == old(self)@.tags.insert(p, (name@, tag@)),
                Err(SymbolError::DuplicateTag(other)) => exists|p: int| 0 <= p < old(self)@.tags.len()
                    && old(self)@.tags[p] == (name@, other@)
                    && final(self)@.tags == old(self)@.tags.update(p, (name@, fresh_tag(name@, defined_at@))),
                Err(_) => false,
            },
    {
        let tag = Tag::new(name, defined_at);
        let copy = tag.snapshot();
        let ghost old_tags = self@.tags;
        match self.tags.insert(name, copy) {
            Some(other) => Err(SymbolError::DuplicateTag(other)),
            None => {
                proof {
                    let p = choose|p: int| 0 <= p <= old_tags.len() && self.tags@ == old_tags.insert(p, (name@, tag@));
                    assert(self@.tags == old_tags.insert(p, (name@, tag@)));
                }
                Ok(tag)
            },
        }
    }

    pub fn get_tag(&self, name: &str) -> (r: Option<&Tag>)
        requires
            self.wf(),
        ensures
            match r {
                Some(tag) => has_name(self@.tags, name@) && exists|p: int| 0 <= p < self@.tags.len() && self@.tags[p] == (name@, tag@),
                None => !has_name(self@.tags, name@),
            },
    {
        self.tags.get(name)
    }

    /// Defines the literal token `name` with text `text`. A token of that
    /// name is replaced, and given back in the error; otherwise a literal
    /// token with that text is given back in the error (its text now naming
    /// the new token).
    pub fn new_literal_token(&mut self, name: &str, text: &str, defined_at: &Location) -> (r: Result<Token, SymbolError>)
        requires
            old(self).wf(),
        ensures
            final(self).wf(),
            final(self)@ == (SymbolTableView { tokens: final(self)@.tokens, literal_tokens: final(self)@.literal_tokens, ..old(self)@ }),
            match r {
                Ok(token) => token@ == TokenView::Literal(fresh_token_data(name@, text@, defined_at@))
                    && !has_name(old(self)@.tokens, name@) && !has_name(old(self)@.literal_tokens, text@)
                    && (exists|p: int| 0 <= p <= old(self)@.tokens.len() && final(self)@.tokens == old(self)@.tokens.insert(p, (name@, token@)))
                    && (exists|p: int| 0 <= p <= old(self)@.literal_tokens.len() && final(self)@.literal_tokens == old(self)@.literal_tokens.insert(p, (text@, name@))),
                Err(SymbolError::DuplicateToken(other)) => final(self)@.literal_tokens == old(self)@.literal_tokens
                    && exists|p: int| 0 <= p < old(self)@.tokens.len() && old(self)@.tokens[p] == (name@, other@)
                        && final(self)@.tokens == old(self)@.tokens.update(p, (name@, TokenView::Literal(fresh_token_data(name@, text@, defined_at@)))),
                Err(SymbolError::DuplicateTokenDefinition(other)) => !has_name(old(self)@.tokens, name@)
                    && (exists|p: int| 0 <= p <= old(self)@.tokens.len() && final(self)@.tokens == old(self)@.tokens.insert(p, (name@, TokenView::Literal(fresh_token_data(name@, text@, defined_at@)))))
                    && exists|p: int| 0 <= p < old(self)@.literal_tokens.len() && old(self)@.literal_tokens[p].0 == text@
                        && final(self)@.literal_tokens == old(self)@.literal_tokens.update(p, (text@, name@))
                        && (has_name(final(self)@.tokens, old(self)@.literal_tokens[p].1) ==> other@ == entry(final(self)@.tokens, old(self)@.literal_tokens[p].1))
                        && (!has_name(final(self)@.tokens, old(self)@.literal_tokens[p].1) ==> other@ is EndToken),
                Err(_) => false,
            },
    {
        let token = Token::new_literal_token(name, text, defined_at);
        let copy = token.snapshot();
        let ghost old_tokens = self@.tokens;
        let ghost old_texts = self@.literal_tokens;
        match self.tokens.insert(name, copy) {
            Some(other) => Err(SymbolError::DuplicateToken(other)),
            None => {
                proof {
                    let p = choose|p: int| 0 <= p <= old_tokens.len() && self.tokens@ == old_tokens.insert(p, (name@, token@));
                    assert(self@.tokens == old_tokens.insert(p, (name@, token@)));
                }
                let name_string = name.to_string();
                match self.literal_tokens.insert(text, name_string) {
                    Some(other_name) => {
                        let other = self.token_named(other_name.as_str());
                        Err(SymbolError::DuplicateTokenDefinition(other))
                    },
                    None => {
                        proof {
                            let p = choose|p: int| 0 <= p <= old_texts.len() && self.literal_tokens@ == old_texts.insert(p, (text@, name@));
                            assert(self@.literal_tokens == old_texts.insert(p, (text@, name@)));
                        }
                        Ok(token)
                    },
                }
            },
        }
    }

    /// Defines the regex token `name` with text `text`, as
    /// [`SymbolTable::new_literal_token`] does literal tokens.
    pub fn new_regex_token(&mut self, name: &str, text: &str, defined_at: &Location) -> (r: Result<Token, SymbolError>)
        requires
            old(self).wf(),
        ensures
            final(self).wf(),
            final(self)@ == (SymbolTableView { tokens: final(self)@.tokens, regex_tokens: final(self)@.regex_tokens, ..old(self)@ }),
            match r {
                Ok(token) => token@ == TokenView::Regex(fresh_token_data(name@, text@, defined_at@))
                    && !has_name(old(self)@.tokens, name@) && !has_name(old(self)@.regex_tokens, text@)
                    && (exists|p: int| 0 <= p <= old(self)@.tokens.len() && final(self)@.tokens == old(self)@.tokens.insert(p, (name@, token@)))
                    && (exists|p: int| 0 <= p <= old(self)@.regex_tokens.len() && final(self)@.regex_tokens == old(self)@.regex_tokens.insert(p, (text@, name@))),
                Err(SymbolError::DuplicateToken(other)) => final(self)@.regex_tokens == old(self)@.regex_tokens
                    && exists|p: int| 0 <= p < old(self)@.tokens.len() && old(self)@.tokens[p] == (name@, other@)
                        && final(self)@.tokens == old(self)@.tokens.update(p, (name@, TokenView::Regex(fresh_token_data(name@, text@, defined_at@)))),
                Err(SymbolError::DuplicateTokenDefinition(other)) => !has_name(old(self)@.tokens, name@)
                    && (exists|p: int| 0 <= p <= old(self)@.tokens.len() && final(self)@.tokens == old(self)@.tokens.insert(p, (name@, TokenView::Regex(fresh_token_data(name@, text@, defined_at@)))))
                    && exists|p: int| 0 <= p < old(self)@.regex_tokens.len() && old(self)@.regex_tokens[p].0 == text@
                        && final(self)@.regex_tokens == old(self)@.regex_tokens.update(p, (text@, name@))
                        && (has_name(final(self)@.tokens, old(self)@.regex_tokens[p].1) ==> other@ == entry(final(self)@.tokens, old(self)@.regex_tokens[p].1))
                        && (!has_name(final(self)@.tokens, old(self)@.regex_tokens[p].1) ==> other@ is EndToken),
                Err(_) => false,
            },
    {
        let token = Token::new_regex_token(name, text, defined_at);
        let copy = token.snapshot();
        let ghost old_tokens = self@.tokens;
        let ghost old_texts = self@.regex_tokens;
        match self.tokens.insert(name, copy) {
            Some(other) => Err(SymbolError::DuplicateToken(other)),
            None => {
                proof {
                    let p = choose|p: int| 0 <= p <= old_tokens.len() && self.tokens@ == old_tokens.insert(p, (name@, token@));
                    assert(self@.tokens == old_tokens.insert(p, (name@, token@)));
                }
                let name_string = name.to_string();
                match self.regex_tokens.insert(text, name_string) {
                    Some(other_name) => {
                        let other = self.token_named(other_name.as_str());
                        Err(SymbolError::DuplicateTokenDefinition(other))
                    },
                    None => {
                        proof {
                            let p = choose|p: int| 0 <= p <= old_texts.len() && self.regex_tokens@ == old_texts.insert(p, (text@, name@));
                            assert(self@.regex_tokens == old_texts.insert(p, (text@, name@)));
                        }
                        Ok(token)
                    },
                }
            },
        }
    }

    /// A copy of the token named `name`; the end token where there is none.
    fn token_named(&self, name: &str) -> (r: Token)
        requires
            self.wf(),
        ensures
            has_name(self@.tokens, name@) ==> r@ == entry(self@.tokens, name@),
            !has_name(self@.tokens, name@) ==> r@ is EndToken,
    {
        match self.tokens.get(name) {
            Some(token) => {
                proof {
                    let p = choose|p: int| 0 <= p < self@.tokens.len() && self@.tokens[p].0 == name@ && self@.tokens[p].1 == token@;
                    lemma_entry_at(self@.tokens, p, name@);
                }
                token.snapshot()
            },
            None => Token::EndToken,
        }
    }
}

/// `list` names the tag `name`.
pub open spec fn names_tag(list: Seq<TagOrTokenView>, name: Seq<char>) -> bool {
    exists|j: int| 0 <= j < list.len() && ((#[trigger] list[j]) matches TagOrTokenView::Tag(t) && t.name == name)
}

/// `list` names the token `name`.
pub open spec fn names_token(list: Seq<TagOrTokenView>, name: Seq<char>) -> bool {
    exists|j: int| 0 <= j < list.len() && ((#[trigger] list[j]) matches TagOrTokenView::Token(t) && !(t is EndToken) && token_data(t).name == name)
}

/// The views of the things a precedence declaration names.
pub open spec fn tag_or_tokens_view(list: Seq<TagOrToken>) -> Seq<TagOrTokenView> {
    list.map_values(|x: TagOrToken| x@)
}

/// The token view with the given associativity and precedence.
pub open spec fn with_precedence(t: TokenView, associativity: Associativity, precedence: u16) -> TokenView {
    match t {
        TokenView::Literal(d) => TokenView::Literal(TokenDataView { associativity, precedence, ..d }),
        TokenView::Regex(d) => TokenView::Regex(TokenDataView { associativity, precedence, ..d }),
        TokenView::EndToken => TokenView::EndToken,
    }
}

impl SymbolTable {
    pub fn get_token(&self, name: &str) -> (r: Option<&Token>)
        requires
            self.wf(),
        ensures
            match r {
                Some(token) => has_name(self@.tokens, name@) && token@ == entry(self@.tokens, name@),
                None => !has_name(self@.tokens, name@),
            },
    {
        match self.tokens.position(name) {
            Some(p) => {
                proof {
                    lemma_entry_at(self@.tokens, p as int, name@);
                }
                Some(self.tokens.value_at(p))
            },
            None => None,
        }
    }

    /// The name of the literal token whose text is `lexeme`.
    pub fn literal_token_name(&self, lexeme: &str) -> (r: Option<&String>)
        requires
            self.wf(),
        ensures
            match r {
                Some(name) => has_name(self@.literal_tokens, lexeme@) && name@ == entry(self@.literal_tokens, lexeme@),
                None => !has_name(self@.literal_tokens, lexeme@),
            },
    {
        match self.literal_tokens.position(lexeme) {
            Some(p) => {
                proof {
                    lemma_entry_at(self@.literal_tokens, p as int, lexeme@);
                }
                Some(self.literal_tokens.value_at(p))
            },
            None => None,
        }
    }

    /// The literal token whose text is `lexeme`.
    pub fn get_literal_token(&self, lexeme: &str) -> (r: Option<&Token>)
        requires
            self.wf(),
        ensures
            match r {
                Some(token) => has_name(self@.literal_tokens, lexeme@)
                    && has_name(self@.tokens, entry(self@.literal_tokens, lexeme@))
                    && token@ == entry(self@.tokens, entry(self@.literal_tokens, lexeme@)),
                None => !has_name(self@.literal_tokens, lexeme@)
                    || !has_name(self@.tokens, entry(self@.literal_tokens, lexeme@)),
            },
    {
        match self.literal_tokens.position(lexeme) {
            Some(p) => {
                proof {
                    lemma_entry_at(self@.literal_tokens, p as int, lexeme@);
                }
                let name = self.literal_tokens.value_at(p);
                self.get_token(name.as_str())
            },
            None => None,
        }
    }

    /// Records a definition of the non terminal `name`: it is made where
    /// unknown; refused where a token has that name.
    pub fn non_terminal_defined_at(&mut self, name: &str, defined_at: &Location) -> (r: Result<NonTerminal, SymbolError>)
        requires
            old(self).wf(),
        ensures
            final(self).wf(),
            final(self)@ == (SymbolTableView { non_terminals: final(self)@.non_terminals, ..old(self)@ }),
            match r {
                Ok(n) => {
                    &&& n@ is UserDefined
                    &&& has_name(final(self)@.non_terminals, name@)
                    &&& n@ == entry(final(self)@.non_terminals, name@)
                    &&& has_name(old(self)@.non_terminals, name@) ==> exists|p: int| 0 <= p < old(self)@.non_terminals.len()
                        && old(self)@.non_terminals[p].0 == name@
                        && non_terminal_data(n@) == (NonTerminalDataView {
                            defined_at: non_terminal_data(old(self)@.non_terminals[p].1).defined_at.push(defined_at@),
                            ..non_terminal_data(old(self)@.non_terminals[p].1)
                        })
                        && final(self)@.non_terminals == old(self)@.non_terminals.update(p, (name@, n@))
                    &&& !has_name(old(self)@.non_terminals, name@) ==> !has_name(old(self)@.tokens, name@)
                        && n@ == NonTerminalView::UserDefined(NonTerminalDataView { defined_at: seq![defined_at@], ..fresh_non_terminal(name@) })
                        && exists|p: int| 0 <= p <= old(self)@.non_terminals.len()
                            && final(self)@.non_terminals == old(self)@.non_terminals.insert(p, (name@, n@))
                },
                Err(SymbolError::ConflictsWithToken(token)) => !has_name(old(self)@.non_terminals, name@)
                    && has_name(old(self)@.tokens, name@) && token@ == entry(old(self)@.tokens, name@)
                    && final(self)@ == old(self)@,
                Err(_) => false,
            },
    {
        match self.non_terminals.position(name) {
            Some(p) => {
                let mut non_terminal = self.non_terminals.value_at(p).snapshot();
                proof {
                    assert(self@.non_terminals[p as int].1 is UserDefined);
                }
                non_terminal.add_defined_at(defined_at);
                let copy = non_terminal.snapshot();
                let _ = self.non_terminals.replace_at(p, copy);
                proof {
                    lemma_entry_at(self@.non_terminals, p as int, name@);
                    assert forall|i: int| 0 <= i < self@.non_terminals.len() implies (#[trigger] self@.non_terminals[i]).1 is UserDefined by {
                        if i != p {
                            assert(self@.non_terminals[i] == old(self)@.non_terminals[i]);
                        }
                    }
                }
                Ok(non_terminal)
            },
            None => {
                match self.tokens.position(name) {
                    Some(p) => {
                        proof {
                            lemma_entry_at(self@.tokens, p as int, name@);
                        }
                        Err(SymbolError::ConflictsWithToken(self.tokens.value_at(p).snapshot()))
                    },
                    None => {
                        let non_terminal = NonTerminal::new_defined(name, defined_at);
                        let copy = non_terminal.snapshot();
                        let ghost before = self@.non_terminals;
                        let _ = self.non_terminals.insert(name, copy);
                        proof {
                            let p = choose|p: int| 0 <= p <= before.len() && self.non_terminals@ == before.insert(p, (name@, non_terminal@));
                            assert(self@.non_terminals == before.insert(p, (name@, non_terminal@)));
                            assert(self@.non_terminals[p] == (name@, non_terminal@));
                            lemma_entry_at(self@.non_terminals, p, name@);
                            assert forall|i: int| 0 <= i < self@.non_terminals.len() implies (#[trigger] self@.non_terminals[i]).1 is UserDefined by {
                                if i < p {
                                    assert(self@.non_terminals[i] == before[i]);
                                } else if i > p {
                                    assert(self@.non_terminals[i] == before[i - 1]);
                                }
                            }
                        }
                        Ok(non_terminal)
                    },
                }
            },
        }
    }

    /// Records a use of the symbol `name`: a token where one has that name,
    /// else a non terminal, which is made where unknown.
    pub fn symbol_used_at(&mut self, name: &str, used_at: &Location) -> (r: Symbol)
        requires
            old(self).wf(),
        ensures
            final(self).wf(),
            match r {
                Symbol::Terminal(t) => has_name(old(self)@.tokens, name@)
                    && final(self)@ == (SymbolTableView { tokens: final(self)@.tokens, ..old(self)@ })
                    && exists|p: int| 0 <= p < old(self)@.tokens.len() && old(self)@.tokens[p].0 == name@
                        && token_data(t@) == (TokenDataView { used_at: token_data(old(self)@.tokens[p].1).used_at.push(used_at@), ..token_data(old(self)@.tokens[p].1) })
                        && final(self)@.tokens == old(self)@.tokens.update(p, (name@, t@)),
                Symbol::NonTerminal(n) => !has_name(old(self)@.tokens, name@)
                    && final(self)@ == (SymbolTableView { non_terminals: final(self)@.non_terminals, ..old(self)@ })
                    && n@ is UserDefined
                    && (has_name(old(self)@.non_terminals, name@) ==> exists|p: int| 0 <= p < old(self)@.non_terminals.len()
                        && old(self)@.non_terminals[p].0 == name@
                        && non_terminal_data(n@) == (NonTerminalDataView {
                            used_at: non_terminal_data(old(self)@.non_terminals[p].1).used_at.push(used_at@),
                            ..non_terminal_data(old(self)@.non_terminals[p].1)
                        })
                        && final(self)@.non_terminals == old(self)@.non_terminals.update(p, (name@, n@)))
                    && (!has_name(old(self)@.non_terminals, name@) ==>
                        n@ == NonTerminalView::UserDefined(NonTerminalDataView { used_at: seq![used_at@], ..fresh_non_terminal(name@) })
                        && exists|p: int| 0 <= p <= old(self)@.non_terminals.len()
                            && final(self)@.non_terminals == old(self)@.non_terminals.insert(p, (name@, n@))),
            },
    {
        match self.tokens.position(name) {
            Some(p) => {
                let mut token = self.tokens.value_at(p).snapshot();
                proof {
                    assert(!(self@.tokens[p as int].1 is EndToken));
                }
                token.add_used_at(used_at);
                let copy = token.snapshot();
                let _ = self.tokens.replace_at(p, copy);
                proof {
                    assert forall|i: int| 0 <= i < self@.tokens.len() implies !((#[trigger] self@.tokens[i]).1 is EndToken) by {
                        if i != p {
                            assert(self@.tokens[i] == old(self)@.tokens[i]);
                        }
                    }
                }
                Symbol::Terminal(token)
            },
            None => {
                match self.non_terminals.position(name) {
                    Some(p) => {
                        let mut non_terminal = self.non_terminals.value_at(p).snapshot();
                        non_terminal.add_used_at(used_at);
                        let copy = non_terminal.snapshot();
                        let _ = self.non_terminals.replace_at(p, copy);
                        proof {
                            assert(old(self)@.non_terminals[p as int].1 is UserDefined);
                            assert forall|i: int| 0 <= i < self@.non_terminals.len() implies (#[trigger] self@.non_terminals[i]).1 is UserDefined by {
                                if i != p {
                                    assert(self@.non_terminals[i] == old(self)@.non_terminals[i]);
                                }
                            }
                        }
                        Symbol::NonTerminal(non_terminal)
                    },
                    None => {
                        let non_terminal = NonTerminal::new_used(name, used_at);
                        let copy = non_terminal.snapshot();
                        let ghost before = self@.non_terminals;
                        let _ = self.non_terminals.insert(name, copy);
                        proof {
                            let p = choose|p: int| 0 <= p <= before.len() && self.non_terminals@ == before.insert(p, (name@, non_terminal@));
                            assert(self@.non_terminals == before.insert(p, (name@, non_terminal@)));
                            assert forall|i: int| 0 <= i < self@.non_terminals.len() implies (#[trigger] self@.non_terminals[i]).1 is UserDefined by {
                                if i < p {
                                    assert(self@.non_terminals[i] == before[i]);
                                } else if i > p {
                                    assert(self@.non_terminals[i] == before[i - 1]);
                                }
                            }
                        }
                        Symbol::NonTerminal(non_terminal)
                    },
                }
            },
        }
    }

    /// The position of the non terminal `name` among the non terminals, in
    /// the order of their names.
    pub fn non_terminal_position(&self, name: &str) -> (r: Option<usize>)
        requires
            self.wf(),
        ensures
            match r {
                Some(p) => p < self@.non_terminals.len() && self@.non_terminals[p as int].0 == name@,
                None => !has_name(self@.non_terminals, name@),
            },
    {
        self.non_terminals.position(name)
    }

    /// How many non terminals the specification names.
    pub fn non_terminals_len(&self) -> (r: usize)
        ensures
            r == self@.non_terminals.len(),
    {
        self.non_terminals.len()
    }

    /// The name of the non terminal at position `p`, in the order of the names.
    pub fn non_terminal_name_at(&self, p: usize) -> (r: String)
        requires
            p < self@.non_terminals.len(),
        ensures
            r@ == self@.non_terminals[p as int].0,
    {
        self.non_terminals.name_at(p)
    }

    /// The skip rules, in the order they were given.
    pub fn skip_rules(&self) -> (r: &Vec<String>)
        ensures
            r@.map_values(|s: String| s@) == self@.skip_rules,
    {
        &self.skip_rules
    }

    /// Whether a precedence is left for another declaration.
    pub fn next_precedence_left(&self) -> (r: bool)
        ensures
            r == (self@.next_precedence > 0),
    {
        self.next_precedence > 0
    }

    /// Records a use of the non terminal `name`, where there is one.
    pub fn non_terminal_used_at(&mut self, name: &str, used_at: &Location) -> (r: Option<NonTerminal>)
        requires
            old(self).wf(),
        ensures
            final(self).wf(),
            match r {
                Some(n) => has_name(old(self)@.non_terminals, name@)
                    && final(self)@ == (SymbolTableView { non_terminals: final(self)@.non_terminals, ..old(self)@ })
                    && n@ is UserDefined
                    && exists|p: int| 0 <= p < old(self)@.non_terminals.len() && old(self)@.non_terminals[p].0 == name@
                        && non_terminal_data(n@) == (NonTerminalDataView {
                            used_at: non_terminal_data(old(self)@.non_terminals[p].1).used_at.push(used_at@),
                            ..non_terminal_data(old(self)@.non_terminals[p].1)
                        })
                        && final(self)@.non_terminals == old(self)@.non_terminals.update(p, (name@, n@)),
                None => !has_name(old(self)@.non_terminals, name@) && final(self)@ == old(self)@,
            },
    {
        match self.non_terminals.position(name) {
            Some(p) => {
                let mut non_terminal = self.non_terminals.value_at(p).snapshot();
                non_terminal.add_used_at(used_at);
                let copy = non_terminal.snapshot();
                let _ = self.non_terminals.replace_at(p, copy);
                proof {
                    assert(old(self)@.non_terminals[p as int].1 is UserDefined);
                    assert forall|i: int| 0 <= i < self@.non_terminals.len() implies (#[trigger] self@.non_terminals[i]).1 is UserDefined by {
                        if i != p {
                            assert(self@.non_terminals[i] == old(self)@.non_terminals[i]);
                        }
                    }
                }
                Some(non_terminal)
            },
            None => None,
        }
    }

    /// Records a use of the error symbol.
    pub fn error_symbol_used_at(&mut self, used_at: &Location) -> (r: Symbol)
        requires
            old(self).wf(),
        ensures
            final(self).wf(),
            final(self)@ == (SymbolTableView { error_non_terminal: final(self)@.error_non_terminal, ..old(self)@ }),
            non_terminal_data(final(self)@.error_non_terminal) == (NonTerminalDataView {
                used_at: non_terminal_data(old(self)@.error_non_terminal).used_at.push(used_at@),
                ..non_terminal_data(old(self)@.error_non_terminal)
            }),
            (final(self)@.error_non_terminal is Error) == (old(self)@.error_non_terminal is Error),
            r@ == SymbolView::NonTerminal(final(self)@.error_non_terminal),
    {
        self.error_non_terminal.add_used_at(used_at);
        Symbol::NonTerminal(self.error_non_terminal.snapshot())
    }

    /// Records a use of the start symbol.
    pub fn start_non_terminal_used_at(&mut self, used_at: &Location) -> (r: NonTerminal)
        requires
            old(self).wf(),
        ensures
            final(self).wf(),
            final(self)@ == (SymbolTableView { start_non_terminal: final(self)@.start_non_terminal, ..old(self)@ }),
            non_terminal_data(final(self)@.start_non_terminal) == (NonTerminalDataView {
                used_at: non_terminal_data(old(self)@.start_non_terminal).used_at.push(used_at@),
                ..non_terminal_data(old(self)@.start_non_terminal)
            }),
            (final(self)@.start_non_terminal is Start) == (old(self)@.start_non_terminal is Start),
            r@ == final(self)@.start_non_terminal,
    {
        self.start_non_terminal.add_used_at(used_at);
        self.start_non_terminal.snapshot()
    }

    /// Adds a skip rule; refuses one that was given already.
    pub fn add_skip_rule(&mut self, skip_rule: &str) -> (r: Result<(), SymbolError>)
        requires
            old(self).wf(),
        ensures
            final(self).wf(),
            match r {
                Ok(()) => !old(self)@.skip_rules.contains(skip_rule@)
                    && final(self)@ == (SymbolTableView { skip_rules: old(self)@.skip_rules.push(skip_rule@), ..old(self)@ }),
                Err(SymbolError::DuplicateSkipRule(s)) => old(self)@.skip_rules.contains(skip_rule@)
                    && s@ == skip_rule@ && final(self)@ == old(self)@,
                Err(_) => false,
            },
    {
        let mut i: usize = 0;
        while i < self.skip_rules.len()
            invariant
                i <= self.skip_rules@.len(),
                self@ == old(self)@,
                self.wf(),
                forall|j: int| 0 <= j < i ==> (#[trigger] self.skip_rules@[j])@ != skip_rule@,
            decreases self.skip_rules@.len() - i,
        {
            if str_equal(self.skip_rules[i].as_str(), skip_rule) {
                proof {
                    assert(self@.skip_rules[i as int] == skip_rule@);
                }
                return Err(SymbolError::DuplicateSkipRule(skip_rule.to_string()));
            }
            i = i + 1;
        }
        proof {
            assert(!self@.skip_rules.contains(skip_rule@)) by {
                if self@.skip_rules.contains(skip_rule@) {
                    let k = choose|k: int| 0 <= k < self@.skip_rules.len() && self@.skip_rules[k] == skip_rule@;
                    assert(self.skip_rules@[k]@ == skip_rule@);
                }
            }
        }
        let ghost before = self.skip_rules@;
        self.skip_rules.push(skip_rule.to_string());
        proof {
            assert(self@.skip_rules =~= old(self)@.skip_rules.push(skip_rule@));
        }
        Ok(())
    }
}

/// The tag view with the given associativity and precedence.
pub open spec fn tag_with_precedence(t: TagView, associativity: Associativity, precedence: u16) -> TagView {
    TagView { associativity, precedence, ..t }
}

/// The things `list` names hold no end token.
pub open spec fn no_end_token(list: Seq<TagOrTokenView>) -> bool {
    forall|j: int| 0 <= j < list.len() ==> !((#[trigger] list[j]) matches TagOrTokenView::Token(t) && t is EndToken)
}

impl SymbolTable {
    /// Gives the tags and tokens of `tag_or_token_list` the associativity
    /// `associativity` and the next precedence, which then decreases.
    #[verifier::rlimit(30)]
    pub fn set_precedences(&mut self, associativity: Associativity, tag_or_token_list: &[TagOrToken])
        requires
            old(self).wf(),
            old(self)@.next_precedence > 0,
            no_end_token(tag_or_token_list@.map_values(|x: TagOrToken| x@)),
        ensures
            final(self).wf(),
            final(self)@ == (SymbolTableView {
                tags: final(self)@.tags,
                tokens: final(self)@.tokens,
                next_precedence: (old(self)@.next_precedence - 1) as u16,
                ..old(self)@
            }),
            final(self)@.tags.len() == old(self)@.tags.len(),
            forall|i: int| 0 <= i < old(self)@.tags.len() ==> #[trigger] final(self)@.tags[i] == (old(self)@.tags[i].0,
                if names_tag(tag_or_token_list@.map_values(|x: TagOrToken| x@), old(self)@.tags[i].0) {
                    tag_with_precedence(old(self)@.tags[i].1, associativity, old(self)@.next_precedence)
                } else {
                    old(self)@.tags[i].1
                }),
            final(self)@.tokens.len() == old(self)@.tokens.len(),
            forall|i: int| 0 <= i < old(self)@.tokens.len() ==> #[trigger] final(self)@.tokens[i] == (old(self)@.tokens[i].0,
                if names_token(tag_or_token_list@.map_values(|x: TagOrToken| x@), old(self)@.tokens[i].0) {
                    with_precedence(old(self)@.tokens[i].1, associativity, old(self)@.next_precedence)
                } else {
                    old(self)@.tokens[i].1
                }),
    {
        let ghost list = tag_or_token_list@.map_values(|x: TagOrToken| x@);
        let ghost s0 = self@;
        let precedence = self.next_precedence;
        self.next_precedence = self.next_precedence - 1;
        let mut k: usize = 0;
        while k < tag_or_token_list.len()
            invariant
                k <= list.len(),
                list == tag_or_token_list@.map_values(|x: TagOrToken| x@),
                no_end_token(list),
                precedence == s0.next_precedence,
                precedence > 0,
                self.wf(),
                self@ == (SymbolTableView { tags: self@.tags, tokens: self@.tokens, next_precedence: (s0.next_precedence - 1) as u16, ..s0 }),
                self@.tags.len() == s0.tags.len(),
                self@.tokens.len() == s0.tokens.len(),
                forall|i: int| 0 <= i < s0.tags.len() ==> #[trigger] self@.tags[i] == (s0.tags[i].0,
                    if names_tag(list.take(k as int), s0.tags[i].0) { tag_with_precedence(s0.tags[i].1, associativity, precedence) } else { s0.tags[i].1 }),
                forall|i: int| 0 <= i < s0.tokens.len() ==> #[trigger] self@.tokens[i] == (s0.tokens[i].0,
                    if names_token(list.take(k as int), s0.tokens[i].0) { with_precedence(s0.tokens[i].1, associativity, precedence) } else { s0.tokens[i].1 }),
            decreases list.len() - k,
        {
            let ghost before = self@;
            proof {
                assert(list[k as int] == tag_or_token_list@[k as int]@);
                assert(list.take(k + 1) =~= list.take(k as int).push(list[k as int]));
            }
            match &tag_or_token_list[k] {
                TagOrToken::Tag(tag) => {
                    match self.tags.position(tag.name()) {
                        Some(p) => {
                            let mut t = self.tags.value_at(p).snapshot();
                            t.set_associativity(associativity);
                            t.set_precedence(precedence);
                            let _ = self.tags.replace_at(p, t);
                        },
                        None => {},
                    }
                },
                TagOrToken::Token(token) => {
                    proof {
                        assert(!(token@ is EndToken));
                    }
                    match self.tokens.position(token.name()) {
                        Some(p) => {
                            let mut t = self.tokens.value_at(p).snapshot();
                            proof {
                                assert(!(before.tokens[p as int].1 is EndToken));
                            }
                            t.set_associativity(associativity);
                            t.set_precedence(precedence);
                            let _ = self.tokens.replace_at(p, t);
                        },
                        None => {},
                    }
                },
                TagOrToken::Invalid => {},
            }
            proof {
                lemma_precedence_step(s0, before, self@, list, k as int, associativity, precedence);
            }
            k = k + 1;
        }
        proof {
            assert(list.take(list.len() as int) =~= list);
        }
    }
}

/// One step of `set_precedences` keeps its invariant.
proof fn lemma_precedence_step(
    s0: SymbolTableView,
    before: SymbolTableView,
    after: SymbolTableView,
    list: Seq<TagOrTokenView>,
    k: int,
    associativity: Associativity,
    precedence: u16,
)
    requires
        0 <= k < list.len(),
        before.tags.len() == s0.tags.len(),
        before.tokens.len() == s0.tokens.len(),
        forall|i: int| 0 <= i < s0.tags.len() ==> #[trigger] before.tags[i] == (s0.tags[i].0,
            if names_tag(list.take(k), s0.tags[i].0) { tag_with_precedence(s0.tags[i].1, associativity, precedence) } else { s0.tags[i].1 }),
        forall|i: int| 0 <= i < s0.tokens.len() ==> #[trigger] before.tokens[i] == (s0.tokens[i].0,
            if names_token(list.take(k), s0.tokens[i].0) { with_precedence(s0.tokens[i].1, associativity, precedence) } else { s0.tokens[i].1 }),
        crate::name_map::names_ordered(before.tags),
        crate::name_map::names_ordered(before.tokens),
        // what the step did
        list[k] matches TagOrTokenView::Tag(t) ==> after.tokens == before.tokens && (
            (has_name(before.tags, t.name) ==> exists|p: int| 0 <= p < before.tags.len() && before.tags[p].0 == t.name
                && after.tags == before.tags.update(p, (t.name, tag_with_precedence(before.tags[p].1, associativity, precedence))))
            && (!has_name(before.tags, t.name) ==> after.tags == before.tags)),
        list[k] matches TagOrTokenView::Token(t) ==> !(t is EndToken) && after.tags == before.tags && (
            (has_name(before.tokens, token_data(t).name) ==> exists|p: int| 0 <= p < before.tokens.len() && before.tokens[p].0 == token_data(t).name
                && after.tokens == before.tokens.update(p, (token_data(t).name, with_precedence(before.tokens[p].1, associativity, precedence))))
            && (!has_name(before.tokens, token_data(t).name) ==> after.tokens == before.tokens)),
        list[k] is Invalid ==> after.tags == before.tags && after.tokens == before.tokens,
    ensures
        after.tags.len() == s0.tags.len(),
        after.tokens.len() == s0.tokens.len(),
        forall|i: int| 0 <= i < s0.tags.len() ==> #[trigger] after.tags[i] == (s0.tags[i].0,
            if names_tag(list.take(k + 1), s0.tags[i].0) { tag_with_precedence(s0.tags[i].1, associativity, precedence) } else { s0.tags[i].1 }),
        forall|i: int| 0 <= i < s0.tokens.len() ==> #[trigger] after.tokens[i] == (s0.tokens[i].0,
            if names_token(list.take(k + 1), s0.tokens[i].0) { with_precedence(s0.tokens[i].1, associativity, precedence) } else { s0.tokens[i].1 }),
{
    let l0 = list.take(k);
    let l1 = list.take(k + 1);
    assert(l1 =~= l0.push(list[k]));
    assert forall|name: Seq<char>| names_tag(l1, name) == (names_tag(l0, name) || (list[k] matches TagOrTokenView::Tag(t) && t.name == name)) by {
        if names_tag(l1, name) {
            let j = choose|j: int| 0 <= j < l1.len() && ((#[trigger] l1[j]) matches TagOrTokenView::Tag(t) && t.name == name);
            if j < k {
                assert(l0[j] == l1[j]);
            }
        }
        if names_tag(l0, name) {
            let j = choose|j: int| 0 <= j < l0.len() && ((#[trigger] l0[j]) matches TagOrTokenView::Tag(t) && t.name == name);
            assert(l1[j] == l0[j]);
        }
        if list[k] matches TagOrTokenView::Tag(t) && t.name == name {
            assert(l1[k] == list[k]);
        }
    }
    assert forall|name: Seq<char>| names_token(l1, name) == (names_token(l0, name) || (list[k] matches TagOrTokenView::Token(t) && !(t is EndToken) && token_data(t).name == name)) by {
        if names_token(l1, name) {
            let j = choose|j: int| 0 <= j < l1.len() && ((#[trigger] l1[j]) matches TagOrTokenView::Token(t) && !(t is EndToken) && token_data(t).name == name);
            if j < k {
                assert(l0[j] == l1[j]);
            }
        }
        if names_token(l0, name) {
            let j = choose|j: int| 0 <= j < l0.len() && ((#[trigger] l0[j]) matches TagOrTokenView::Token(t) && !(t is EndToken) && token_data(t).name == name);
            assert(l1[j] == l0[j]);
        }
        if list[k] matches TagOrTokenView::Token(t) && !(t is EndToken) && token_data(t).name == name {
            assert(l1[k] == list[k]);
        }
    }
    assert forall|i: int| 0 <= i < s0.tags.len() implies #[trigger] after.tags[i] == (s0.tags[i].0,
        if names_tag(l1, s0.tags[i].0) { tag_with_precedence(s0.tags[i].1, associativity, precedence) } else { s0.tags[i].1 }) by {
        assert(before.tags[i] == (s0.tags[i].0,
            if names_tag(l0, s0.tags[i].0) { tag_with_precedence(s0.tags[i].1, associativity, precedence) } else { s0.tags[i].1 }));
        if let TagOrTokenView::Tag(t) = list[k] {
            if has_name(before.tags, t.name) {
                let p = choose|p: int| 0 <= p < before.tags.len() && before.tags[p].0 == t.name
                    && after.tags == before.tags.update(p, (t.name, tag_with_precedence(before.tags[p].1, associativity, precedence)));
                if i != p && before.tags[i].0 == t.name {
                    crate::order::lemma_bytes_order(crate::name_map::name_bytes(before.tags[i].0), crate::name_map::name_bytes(before.tags[p].0), crate::name_map::name_bytes(t.name));
                    if i < p {
                        assert(crate::order::bytes_lt(crate::name_map::name_bytes(before.tags[i].0), crate::name_map::name_bytes(before.tags[p].0)));
                    } else {
                        assert(crate::order::bytes_lt(crate::name_map::name_bytes(before.tags[p].0), crate::name_map::name_bytes(before.tags[i].0)));
                    }
                }
            } else {
                if before.tags[i].0 == t.name {
                    assert(has_name(before.tags, t.name));
                }
            }
        }
    }
    assert forall|i: int| 0 <= i < s0.tokens.len() implies #[trigger] after.tokens[i] == (s0.tokens[i].0,
        if names_token(l1, s0.tokens[i].0) { with_precedence(s0.tokens[i].1, associativity, precedence) } else { s0.tokens[i].1 }) by {
        assert(before.tokens[i] == (s0.tokens[i].0,
            if names_token(l0, s0.tokens[i].0) { with_precedence(s0.tokens[i].1, associativity, precedence) } else { s0.tokens[i].1 }));
        if let TagOrTokenView::Token(t) = list[k] {
            if has_name(before.tokens, token_data(t).name) {
                let p = choose|p: int| 0 <= p < before.tokens.len() && before.tokens[p].0 == token_data(t).name
                    && after.tokens == before.tokens.update(p, (token_data(t).name, with_precedence(before.tokens[p].1, associativity, precedence)));
                if i != p && before.tokens[i].0 == token_data(t).name {
                    crate::order::lemma_bytes_order(crate::name_map::name_bytes(before.tokens[i].0), crate::name_map::name_bytes(before.tokens[p].0), crate::name_map::name_bytes(token_data(t).name));
                    if i < p {
                        assert(crate::order::bytes_lt(crate::name_map::name_bytes(before.tokens[i].0), crate::name_map::name_bytes(before.tokens[p].0)));
                    } else {
                        assert(crate::order::bytes_lt(crate::name_map::name_bytes(before.tokens[p].0), crate::name_map::name_bytes(before.tokens[i].0)));
                    }
                }
            } else {
                if before.tokens[i].0 == token_data(t).name {
                    assert(has_name(before.tokens, token_data(t).name));
                }
            }
        }
    }
}


/// A symbol found by its name: a token, a tag or a non terminal.
#[derive(Debug)]
pub enum NamedSymbol {
    Token(Token),
    Tag(Tag),
    NonTerminal(NonTerminal),
}

impl SymbolTable {
    /// Records a use of the symbol `name`, looked for among the tokens, then
    /// the tags, then the non terminals; `None` where there is none.
    pub fn use_symbol_named(&mut self, name: &str, used_at: &Location) -> (r: Option<NamedSymbol>)
        requires
            old(self).wf(),
        ensures
            final(self).wf(),
            match r {
                Some(NamedSymbol::Token(t)) => has_name(old(self)@.tokens, name@)
                    && final(self)@ == (SymbolTableView { tokens: final(self)@.tokens, ..old(self)@ })
                    && exists|p: int| 0 <= p < old(self)@.tokens.len() && old(self)@.tokens[p].0 == name@
                        && token_data(t@) == (TokenDataView { used_at: token_data(old(self)@.tokens[p].1).used_at.push(used_at@), ..token_data(old(self)@.tokens[p].1) })
                        && final(self)@.tokens == old(self)@.tokens.update(p, (name@, t@)),
                Some(NamedSymbol::Tag(t)) => !has_name(old(self)@.tokens, name@)
                    && final(self)@ == (SymbolTableView { tags: final(self)@.tags, ..old(self)@ })
                    && exists|p: int| 0 <= p < old(self)@.tags.len() && old(self)@.tags[p].0 == name@
                        && t@ == (TagView { used_at: old(self)@.tags[p].1.used_at.push(used_at@), ..old(self)@.tags[p].1 })
                        && final(self)@.tags == old(self)@.tags.update(p, (name@, t@)),
                Some(NamedSymbol::NonTerminal(n)) => !has_name(old(self)@.tokens, name@) && !has_name(old(self)@.tags, name@)
                    && final(self)@ == (SymbolTableView { non_terminals: final(self)@.non_terminals, ..old(self)@ })
                    && n@ is UserDefined
                    && exists|p: int| 0 <= p < old(self)@.non_terminals.len() && old(self)@.non_terminals[p].0 == name@
                        && non_terminal_data(n@) == (NonTerminalDataView {
                            used_at: non_terminal_data(old(self)@.non_terminals[p].1).used_at.push(used_at@),
                            ..non_terminal_data(old(self)@.non_terminals[p].1)
                        })
                        && final(self)@.non_terminals == old(self)@.non_terminals.update(p, (name@, n@)),
                None => !has_name(old(self)@.tokens, name@) && !has_name(old(self)@.tags, name@)
                    && !has_name(old(self)@.non_terminals, name@) && final(self)@ == old(self)@,
            },
    {
        if self.tokens.position(name).is_some() {
            match self.symbol_used_at(name, used_at) {
                Symbol::Terminal(t) => return Some(NamedSymbol::Token(t)),
                Symbol::NonTerminal(n) => return Some(NamedSymbol::NonTerminal(n)),
            }
        }
        match self.tags.position(name) {
            Some(p) => {
                let mut tag = self.tags.value_at(p).snapshot();
                tag.add_used_at(used_at);
                let copy = tag.snapshot();
                let _ = self.tags.replace_at(p, copy);
                proof {
                    assert forall|i: int| 0 <= i < self@.non_terminals.len() implies (#[trigger] self@.non_terminals[i]).1 is UserDefined by {
                        assert(self@.non_terminals[i] == old(self)@.non_terminals[i]);
                    }
                }
                Some(NamedSymbol::Tag(tag))
            },
            None => {
                if self.non_terminals.position(name).is_some() {
                    match self.symbol_used_at(name, used_at) {
                        Symbol::Terminal(t) => Some(NamedSymbol::Token(t)),
                        Symbol::NonTerminal(n) => Some(NamedSymbol::NonTerminal(n)),
                    }
                } else {
                    None
                }
            },
        }
    }
}


/// Where a token was defined, as text; nothing for the end token, which no
/// specification defines.
pub open spec fn token_place_text(t: TokenView) -> Seq<char> {
    match t {
        TokenView::EndToken => Seq::empty(),
        _ => crate::location::location_text(token_data(t).defined_at),
    }
}

/// The message on a token whose name was defined again.
pub open spec fn token_already_defined_text(t: TokenView) -> Seq<char> {
    "Token \""@ + crate::description::token_name_text(t) + "\" already defined at "@ + token_place_text(t)
}

/// The message on a token whose text was defined again under another name.
pub open spec fn token_same_definition_text(t: TokenView) -> Seq<char> {
    "Token \""@ + crate::description::token_name_text(t) + "\" defined at "@ + token_place_text(t) + " has same definition"@
}

/// The message that a refused definition gives.
pub open spec fn symbol_error_text(e: SymbolError) -> Seq<char> {
    match e {
        SymbolError::DuplicateTag(tag) => "Tag \""@ + tag@.name + "\" already defined at "@ + crate::location::location_text(tag@.defined_at),
        SymbolError::DuplicateToken(t) => token_already_defined_text(t@),
        SymbolError::DuplicateTokenDefinition(t) => token_same_definition_text(t@),
        SymbolError::ConflictsWithToken(t) => "NonTerminal \""@ + crate::description::token_name_text(t@) + "\" conflicts with token defined at "@
            + token_place_text(t@) + "."@,
        SymbolError::DuplicateSkipRule(rule) => "Skip rule \""@ + rule@ + "\" already defined."@,
    }
}

/// Where `token` was defined, as text.
fn token_place(token: &Token) -> (r: String)
    ensures
        r@ == token_place_text(token@),
{
    match token {
        Token::EndToken => String::new(),
        _ => token.defined_at().to_string(),
    }
}

impl SymbolError {
    /// What went wrong, for people.
    pub fn message(&self) -> (r: String)
        ensures
            r@ == symbol_error_text(*self),
    {
        proof {
            reveal_strlit("Tag \"");
            reveal_strlit("\" already defined at ");
            reveal_strlit("Token \"");
            reveal_strlit("\" defined at ");
            reveal_strlit(" has same definition");
            reveal_strlit("NonTerminal \"");
            reveal_strlit("\" conflicts with token defined at ");
            reveal_strlit(".");
            reveal_strlit("Skip rule \"");
            reveal_strlit("\" already defined.");
        }
        match self {
            SymbolError::DuplicateTag(tag) => {
                let mut r = String::from_str("Tag \"");
                r.append(tag.name());
                r.append("\" already defined at ");
                r.append(tag.defined_at().to_string().as_str());
                r
            },
            SymbolError::DuplicateToken(t) => {
                let mut r = String::from_str("Token \"");
                r.append(crate::description::token_name_str(t));
                r.append("\" already defined at ");
                r.append(token_place(t).as_str());
                r
            },
            SymbolError::DuplicateTokenDefinition(t) => {
                let mut r = String::from_str("Token \"");
                r.append(crate::description::token_name_str(t));
                r.append("\" defined at ");
                r.append(token_place(t).as_str());
                r.append(" has same definition");
                r
            },
            SymbolError::ConflictsWithToken(t) => {
                let mut r = String::from_str("NonTerminal \"");
                r.append(crate::description::token_name_str(t));
                r.append("\" conflicts with token defined at ");
                r.append(token_place(t).as_str());
                r.append(".");
                r
            },
            SymbolError::DuplicateSkipRule(rule) => {
                let mut r = String::from_str("Skip rule \"");
                r.append(rule.as_str());
                r.append("\" already defined.");
                r
            },
        }
    }
}

} // verus!
