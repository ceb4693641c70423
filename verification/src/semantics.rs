//! The meaning of the grammar specification language: what each of its
//! productions, once reduced, adds to the symbols and the productions of the
//! specification being read, and the errors and warnings it finds there.

use vstd::prelude::*;
use vstd::string::{StrSliceExecFns, StringExecFns};

use crate::alapgen::{
    action, allowable_name, expects, goto, goto_state, is_allowable_name, lemma_terminal_tag_injective, look_ahead_set, next_action,
    production, production_data,
    terminal_tag, AANonTerminal, AATerminal, PRODUCTION_COUNT, STATE_COUNT,
};
use crate::ordered_set::OrderedSet;
use crate::parser::{top_state, Action, ParseStack, Parser};
use crate::grammar::Specification;
use crate::production::{expanded_action, expanded_action_text, rhs_precedence, symbols_view, GrammarSymbol, GrammarSymbolView, ProductionView};
use crate::description::production_text;
use crate::text::{decimal, decimal_string};
use crate::firsts::symbols_below;
use crate::location::{location_text, locations_view, Location, LocationView};
use crate::name_map::{entry, has_name, lemma_entry_at, lemma_names_distinct};
use crate::non_terminal::{non_terminal_data, NonTerminal, NonTerminalDataView, NonTerminalView};
use crate::symbol::Associativity;
use crate::symbol_table::{token_already_defined_text, token_same_definition_text, empty_symbol_table, names_tag, names_token, no_end_token, tag_with_precedence, with_precedence, NamedSymbol, Symbol, SymbolError, SymbolTable, SymbolTableView, SymbolView};
use crate::tag::{TagOrToken, TagOrTokenView, TagView};
use crate::terminal::{fresh_token_data, token_data, TokenDataView, TokenView};

verus! {

/// The right hand side of a production, with the predicate that guards it,
/// the precedence tagged on it and its action.
#[derive(Debug)]
pub struct ProductionTail {
    pub right_hand_side: Vec<Symbol>,
    pub predicate: Option<String>,
    pub associative_precedence: Option<(Associativity, u16)>,
    pub action: Option<String>,
}

/// The text an optional string holds.
pub open spec fn opt_text(o: Option<String>) -> Option<Seq<char>> {
    match o {
        Some(s) => Some(s@),
        None => None,
    }
}

/// The views of a list of symbols.
pub open spec fn symbols_of(list: Seq<Symbol>) -> Seq<SymbolView> {
    list.map_values(|s: Symbol| s@)
}

/// Abstract value of a [`ProductionTail`].
pub struct ProductionTailView {
    pub right_hand_side: Seq<SymbolView>,
    pub predicate: Option<Seq<char>>,
    pub associative_precedence: Option<(Associativity, u16)>,
    pub action: Option<Seq<char>>,
}

impl View for ProductionTail {
    type V = ProductionTailView;

    open spec fn view(&self) -> ProductionTailView {
        ProductionTailView {
            right_hand_side: symbols_of(self.right_hand_side@),
            predicate: opt_text(self.predicate),
            associative_precedence: self.associative_precedence,
            action: opt_text(self.action),
        }
    }
}

/// An error or a warning about a specification, and where it was found.
#[derive(Debug)]
pub struct Diagnostic {
    pub location: Location,
    pub is_error: bool,
    pub message: String,
}

/// Abstract value of a [`Diagnostic`].
pub struct DiagnosticView {
    pub location: LocationView,
    pub is_error: bool,
    pub message: Seq<char>,
}

impl View for Diagnostic {
    type V = DiagnosticView;

    open spec fn view(&self) -> DiagnosticView {
        DiagnosticView { location: self.location@, is_error: self.is_error, message: self.message@ }
    }
}

/// One more, unless the count is at its limit.
pub open spec fn one_more(n: u32) -> u32 {
    if n < u32::MAX {
        (n + 1) as u32
    } else {
        n
    }
}

/// Abstract value of a [`SpecificationParser`].
pub struct SpecificationParserView {
    pub symbol_table: SymbolTableView,
    pub productions: Seq<(NonTerminalView, ProductionTailView)>,
    pub preamble: Seq<char>,
    pub attribute_type: Seq<char>,
    pub target_type: Seq<char>,
    pub diagnostics: Seq<DiagnosticView>,
    pub error_count: u32,
    pub warning_count: u32,
    /// The file that the specification asks to be read in, and where it asks.
    pub injection: Option<(Seq<char>, LocationView)>,
}

/// Reads a grammar specification: the parser of the specification language
/// calls its semantic actions, which fill its symbol table and its list of
/// productions and record what is wrong with the specification.
#[derive(Debug)]
pub struct SpecificationParser {
    symbol_table: SymbolTable,
    productions: Vec<(NonTerminal, ProductionTail)>,
    preamble: String,
    attribute_type: String,
    target_type: String,
    diagnostics: Vec<Diagnostic>,
    error_count: u32,
    warning_count: u32,
    injection: Option<(String, Location)>,
}

impl View for SpecificationParser {
    type V = SpecificationParserView;

    closed spec fn view(&self) -> SpecificationParserView {
        SpecificationParserView {
            symbol_table: self.symbol_table@,
            productions: self.productions@.map_values(|p: (NonTerminal, ProductionTail)| (p.0@, p.1@)),
            preamble: self.preamble@,
            attribute_type: self.attribute_type@,
            target_type: self.target_type@,
            diagnostics: self.diagnostics@.map_values(|d: Diagnostic| d@),
            error_count: self.error_count,
            warning_count: self.warning_count,
            injection: match self.injection {
                Some((path, location)) => Some((path@, location@)),
                None => None,
            },
        }
    }
}

/// `a`, then `b`, then `c`.
fn concat3(a: &str, b: &str, c: &str) -> (r: String)
    ensures
        r@ == a@ + b@ + c@,
{
    let mut r = String::from_str(a);
    r.append(b);
    r.append(c);
    r
}

/// The warning on a name that may clash with the names of generated code.
pub open spec fn clash_text(kind: Seq<char>, name: Seq<char>) -> Seq<char> {
    kind + " \""@ + name + "\" may clash with generated code"@
}

/// What warning on a name that may clash does to the parser's view: a
/// warning where the name starts with `aa` or `AA`, else nothing.
pub open spec fn clash_warning_effect(v0: SpecificationParserView, v1: SpecificationParserView, kind: Seq<char>, name: Seq<char>, at: LocationView) -> bool {
    &&& allowable_name(name) ==> v1 == v0
    &&& !allowable_name(name) ==> v1 == (SpecificationParserView {
        diagnostics: v0.diagnostics.push(DiagnosticView { location: at, is_error: false, message: clash_text(kind, name) }),
        warning_count: one_more(v0.warning_count),
        ..v0
    })
}

impl SpecificationParser {
    pub closed spec fn wf(&self) -> bool {
        self.symbol_table.wf()
    }

    /// A parser that has read nothing yet.
    pub fn new() -> (r: Self)
        ensures
            r.wf(),
            r@.symbol_table == empty_symbol_table(),
            r@.productions.len() == 0,
            r@.preamble.len() == 0,
            r@.attribute_type == "AttributeData"@,
            r@.target_type == "GrammarSpecification"@,
            r@.diagnostics.len() == 0,
            r@.error_count == 0,
            r@.warning_count == 0,
            r@.injection is None,
    {
        proof {
            reveal_strlit("AttributeData");
            reveal_strlit("GrammarSpecification");
        }
        let r = SpecificationParser {
            symbol_table: SymbolTable::new(),
            productions: Vec::new(),
            preamble: String::new(),
            attribute_type: String::from_str("AttributeData"),
            target_type: String::from_str("GrammarSpecification"),
            diagnostics: Vec::new(),
            error_count: 0,
            warning_count: 0,
            injection: None,
        };
        proof {
            assert(r@.productions =~= Seq::empty());
            assert(r@.diagnostics =~= Seq::empty());
        }
        r
    }

    /// Records the error `message` found at `location`.
    pub fn error(&mut self, location: &Location, message: String)
        ensures
            final(self).wf() == old(self).wf(),
            final(self)@ == (SpecificationParserView {
                diagnostics: old(self)@.diagnostics.push(DiagnosticView { location: location@, is_error: true, message: message@ }),
                error_count: one_more(old(self)@.error_count),
                ..old(self)@
            }),
    {
        let ghost before = self.diagnostics@;
        self.diagnostics.push(Diagnostic { location: location.snapshot(), is_error: true, message });
        if self.error_count < u32::MAX {
            self.error_count = self.error_count + 1;
        }
        proof {
            assert(self.diagnostics@.map_values(|d: Diagnostic| d@) =~= before.map_values(|d: Diagnostic| d@).push(
                self.diagnostics@.last()@,
            ));
        }
    }

    /// Records the warning `message` found at `location`.
    pub fn warning(&mut self, location: &Location, message: String)
        ensures
            final(self).wf() == old(self).wf(),
            final(self)@ == (SpecificationParserView {
                diagnostics: old(self)@.diagnostics.push(DiagnosticView { location: location@, is_error: false, message: message@ }),
                warning_count: one_more(old(self)@.warning_count),
                ..old(self)@
            }),
    {
        let ghost before = self.diagnostics@;
        self.diagnostics.push(Diagnostic { location: location.snapshot(), is_error: false, message });
        if self.warning_count < u32::MAX {
            self.warning_count = self.warning_count + 1;
        }
        proof {
            assert(self.diagnostics@.map_values(|d: Diagnostic| d@) =~= before.map_values(|d: Diagnostic| d@).push(
                self.diagnostics@.last()@,
            ));
        }
    }

    /// Warns where `name` may clash with the names of generated code; `kind`
    /// says what it names.
    fn warn_if_clashing(&mut self, kind: &str, name: &str, location: &Location)
        ensures
            final(self).wf() == old(self).wf(),
            clash_warning_effect(old(self)@, final(self)@, kind@, name@, location@),
    {
        if !is_allowable_name(name) {
            proof {
                reveal_strlit(" \"");
                reveal_strlit("\" may clash with generated code");
            }
            let mut message = concat3(kind, " \"", name);
            message.append("\" may clash with generated code");
            self.warning(location, message);
        }
    }

    /// The diagnostics so far, in the order they were found.
    pub fn diagnostics(&self) -> (r: &Vec<Diagnostic>)
        ensures
            r@.map_values(|d: Diagnostic| d@) == self@.diagnostics,
    {
        &self.diagnostics
    }

    pub fn error_count(&self) -> (r: u32)
        ensures
            r == self@.error_count,
    {
        self.error_count
    }

    pub fn warning_count(&self) -> (r: u32)
        ensures
            r == self@.warning_count,
    {
        self.warning_count
    }

    pub fn preamble(&self) -> (r: &str)
        ensures
            r@ == self@.preamble,
    {
        self.preamble.as_str()
    }

    pub fn attribute_type(&self) -> (r: &str)
        ensures
            r@ == self@.attribute_type,
    {
        self.attribute_type.as_str()
    }

    pub fn target_type(&self) -> (r: &str)
        ensures
            r@ == self@.target_type,
    {
        self.target_type.as_str()
    }

    pub fn symbol_table(&self) -> (r: &SymbolTable)
        ensures
            r@ == self@.symbol_table,
    {
        &self.symbol_table
    }
}


/// `s` without the double quotes at its start and at its end.
pub open spec fn without_quotes(s: Seq<char>) -> Seq<char>
    decreases s.len(),
{
    if s.len() > 0 && s[0] == '"' {
        without_quotes(s.drop_first())
    } else if s.len() > 0 && s.last() == '"' {
        without_quotes(s.drop_last())
    } else {
        s
    }
}

/// `text` without the double quotes at its start and at its end.
pub fn trim_quotes(text: &str) -> (r: String)
    ensures
        r@ == without_quotes(text@),
{
    let n = text.unicode_len();
    let ghost s = text@;
    let mut i: usize = 0;
    proof {
        assert(s.subrange(0, n as int) =~= s);
    }
    while i < n && text.get_char(i) == '"'
        invariant
            s == text@,
            n == s.len(),
            i <= n,
            without_quotes(s) == without_quotes(s.subrange(i as int, n as int)),
        decreases n - i,
    {
        proof {
            let t = s.subrange(i as int, n as int);
            assert(t.len() > 0 && t[0] == '"');
            assert(t.drop_first() =~= s.subrange(i + 1, n as int));
            assert(without_quotes(t) == without_quotes(t.drop_first()));
        }
        i = i + 1;
    }
    let mut j: usize = n;
    while j > i && text.get_char(j - 1) == '"'
        invariant
            s == text@,
            n == s.len(),
            i <= j <= n,
            i < n ==> s[i as int] != '"',
            without_quotes(s) == without_quotes(s.subrange(i as int, j as int)),
        decreases j - i,
    {
        proof {
            let t = s.subrange(i as int, j as int);
            assert(t[0] == s[i as int]);
            assert(t.last() == s[j - 1]);
            assert(t.drop_last() =~= s.subrange(i as int, j - 1));
            assert(without_quotes(t) == without_quotes(t.drop_last()));
        }
        j = j - 1;
    }
    proof {
        let t = s.subrange(i as int, j as int);
        if j > i {
            assert(t[0] == s[i as int]);
            assert(t.last() == s[j - 1]);
        }
        assert(without_quotes(t) == t);
    }
    text.substring_char(i, j).to_string()
}

/// The text between the two characters that open and the two that close a
/// block of code, an action or a predicate.
pub fn inner_text(text: &str) -> (r: String)
    requires
        text@.len() >= 4,
    ensures
        r@ == text@.subrange(2, text@.len() - 2),
{
    let n = text.unicode_len();
    text.substring_char(2, n - 2).to_string()
}

/// The token a pattern defines: a literal where it starts with a double
/// quote, else a regular expression.
pub open spec fn defined_token(name: Seq<char>, pattern: Seq<char>, at: LocationView) -> TokenView {
    if pattern.len() > 0 && pattern[0] == '"' {
        TokenView::Literal(fresh_token_data(name, pattern, at))
    } else {
        TokenView::Regex(fresh_token_data(name, pattern, at))
    }
}

/// The texts of the tokens of the kind that `pattern` defines.
pub open spec fn texts_of_kind(table: SymbolTableView, pattern: Seq<char>) -> Seq<(Seq<char>, Seq<char>)> {
    if pattern.len() > 0 && pattern[0] == '"' {
        table.literal_tokens
    } else {
        table.regex_tokens
    }
}

/// The earlier token that a refused definition of `name` by `pattern` meets:
/// the one of that name, else the one with that text.
pub open spec fn earlier_token(old_table: SymbolTableView, new_table: SymbolTableView, name: Seq<char>, pattern: Seq<char>) -> TokenView {
    if has_name(old_table.tokens, name) {
        entry(old_table.tokens, name)
    } else if has_name(new_table.tokens, entry(texts_of_kind(old_table, pattern), pattern)) {
        entry(new_table.tokens, entry(texts_of_kind(old_table, pattern), pattern))
    } else {
        TokenView::EndToken
    }
}

impl SpecificationParser {
    /// `%attr`: the type of the attributes of the generated parser.
    pub fn set_attribute_type(&mut self, name: &str)
        ensures
            final(self).wf() == old(self).wf(),
            final(self)@ == (SpecificationParserView { attribute_type: name@, ..old(self)@ }),
    {
        self.attribute_type = name.to_string();
    }

    /// `%target`: the type that the generated parser is implemented for.
    pub fn set_target_type(&mut self, name: &str)
        ensures
            final(self).wf() == old(self).wf(),
            final(self)@ == (SpecificationParserView { target_type: name@, ..old(self)@ }),
    {
        self.target_type = name.to_string();
    }

    /// The preamble: the code inside `code`'s brackets.
    pub fn set_preamble(&mut self, code: &str)
        requires
            code@.len() >= 4,
        ensures
            final(self).wf() == old(self).wf(),
            final(self)@ == (SpecificationParserView { preamble: code@.subrange(2, code@.len() - 2), ..old(self)@ }),
    {
        self.preamble = inner_text(code);
    }

    /// `%inject`: asks for the file named by `literal` to be read in.
    pub fn request_injection(&mut self, literal: &str, location: &Location)
        ensures
            final(self).wf() == old(self).wf(),
            final(self)@ == (SpecificationParserView { injection: Some((without_quotes(literal@), location@)), ..old(self)@ }),
    {
        self.injection = Some((trim_quotes(literal), location.snapshot()));
    }

    /// The file asked for by the last `%inject`, if it has not been taken yet.
    pub fn take_injection(&mut self) -> (r: Option<(String, Location)>)
        ensures
            final(self).wf() == old(self).wf(),
            final(self)@ == (SpecificationParserView { injection: None, ..old(self)@ }),
            match r {
                Some((path, location)) => old(self)@.injection == Some((path@, location@)),
                None => old(self)@.injection is None,
            },
    {
        let r = match &self.injection {
            Some((path, location)) => Some((path.clone(), location.snapshot())),
            None => None,
        };
        self.injection = None;
        r
    }

    /// `%token`: defines the token `name`, a literal or a regular expression
    /// as `pattern` says; a definition that meets an earlier token of that
    /// name or text is an error.
    pub fn define_token(&mut self, name: &str, location: &Location, pattern: &str)
        requires
            old(self).wf(),
        ensures
            final(self).wf(),
            has_name(final(self)@.symbol_table.tokens, name@),
            entry(final(self)@.symbol_table.tokens, name@) == defined_token(name@, pattern@, location@),
            final(self)@.symbol_table == (SymbolTableView {
                tokens: final(self)@.symbol_table.tokens,
                literal_tokens: final(self)@.symbol_table.literal_tokens,
                regex_tokens: final(self)@.symbol_table.regex_tokens,
                ..old(self)@.symbol_table
            }),
            ({
                let refused = has_name(old(self)@.symbol_table.tokens, name@)
                    || has_name(texts_of_kind(old(self)@.symbol_table, pattern@), pattern@);
                &&& !refused ==> final(self)@ == (SpecificationParserView { symbol_table: final(self)@.symbol_table, ..old(self)@ })
                &&& refused ==> final(self)@ == (SpecificationParserView {
                    symbol_table: final(self)@.symbol_table,
                    diagnostics: old(self)@.diagnostics.push(DiagnosticView {
                        location: location@,
                        is_error: true,
                        message: if has_name(old(self)@.symbol_table.tokens, name@) {
                            token_already_defined_text(earlier_token(old(self)@.symbol_table, final(self)@.symbol_table, name@, pattern@))
                        } else {
                            token_same_definition_text(earlier_token(old(self)@.symbol_table, final(self)@.symbol_table, name@, pattern@))
                        },
                    }),
                    error_count: one_more(old(self)@.error_count),
                    ..old(self)@
                })
            }),
    {
        let ghost t0 = self@.symbol_table;
        proof {
            self.symbol_table.lemma_wf();
        }
        let literal = pattern.unicode_len() > 0 && pattern.get_char(0) == '"';
        let result = if literal {
            self.symbol_table.new_literal_token(name, pattern, location)
        } else {
            self.symbol_table.new_regex_token(name, pattern, location)
        };
        let ghost t1 = self@.symbol_table;
        proof {
            self.symbol_table.lemma_wf();
            let texts = texts_of_kind(t0, pattern@);
            match &result {
                Ok(token) => {
                    let p = choose|p: int| 0 <= p <= t0.tokens.len() && t1.tokens == t0.tokens.insert(p, (name@, token@));
                    lemma_entry_at(t1.tokens, p, name@);
                },
                Err(SymbolError::DuplicateToken(other)) => {
                    let p = choose|p: int| 0 <= p < t0.tokens.len() && t0.tokens[p] == (name@, other@)
                        && t1.tokens == t0.tokens.update(p, (name@, defined_token(name@, pattern@, location@)));
                    lemma_entry_at(t1.tokens, p, name@);
                    lemma_entry_at(t0.tokens, p, name@);
                },
                Err(SymbolError::DuplicateTokenDefinition(other)) => {
                    let p = choose|p: int| 0 <= p <= t0.tokens.len() && t1.tokens == t0.tokens.insert(p, (name@, defined_token(name@, pattern@, location@)));
                    lemma_entry_at(t1.tokens, p, name@);
                    let q = choose|q: int| 0 <= q < texts.len() && texts[q].0 == pattern@
                        && (has_name(t1.tokens, texts[q].1) ==> other@ == entry(t1.tokens, texts[q].1))
                        && (!has_name(t1.tokens, texts[q].1) ==> other@ is EndToken);
                    lemma_entry_at(texts, q, pattern@);
                },
                Err(_) => {},
            }
        }
        match result {
            Ok(_) => {},
            Err(SymbolError::DuplicateToken(other)) => {
                let message = SymbolError::DuplicateToken(other).message();
                self.error(location, message);
            },
            Err(SymbolError::DuplicateTokenDefinition(other)) => {
                let message = SymbolError::DuplicateTokenDefinition(other).message();
                self.error(location, message);
            },
            Err(_) => {},
        }
    }
}


/// `v` with the error `message` found at `at` recorded.
pub open spec fn with_error(v: SpecificationParserView, at: LocationView, message: Seq<char>) -> SpecificationParserView {
    SpecificationParserView {
        diagnostics: v.diagnostics.push(DiagnosticView { location: at, is_error: true, message }),
        error_count: one_more(v.error_count),
        ..v
    }
}

/// `v` with the symbol table `table`.
pub open spec fn with_table(v: SpecificationParserView, table: SymbolTableView) -> SpecificationParserView {
    SpecificationParserView { symbol_table: table, ..v }
}

/// `t1` is `t0` with a use at `at` recorded for the token `name`, which is now `t`.
pub open spec fn token_use(t0: SymbolTableView, t1: SymbolTableView, name: Seq<char>, at: LocationView, t: TokenView) -> bool {
    &&& t1 == (SymbolTableView { tokens: t1.tokens, ..t0 })
    &&& exists|p: int| 0 <= p < t0.tokens.len() && t0.tokens[p].0 == name
        && token_data(t) == (TokenDataView { used_at: token_data(t0.tokens[p].1).used_at.push(at), ..token_data(t0.tokens[p].1) })
        && t1.tokens == t0.tokens.update(p, (name, t))
}

/// `t1` is `t0` with a use at `at` recorded for the tag `name`, which is now `t`.
pub open spec fn tag_use(t0: SymbolTableView, t1: SymbolTableView, name: Seq<char>, at: LocationView, t: TagView) -> bool {
    &&& t1 == (SymbolTableView { tags: t1.tags, ..t0 })
    &&& exists|p: int| 0 <= p < t0.tags.len() && t0.tags[p].0 == name
        && t == (TagView { used_at: t0.tags[p].1.used_at.push(at), ..t0.tags[p].1 })
        && t1.tags == t0.tags.update(p, (name, t))
}

/// `t1` is `t0` with a use at `at` recorded for the non terminal `name`,
/// which is now `n`.
pub open spec fn non_terminal_use(t0: SymbolTableView, t1: SymbolTableView, name: Seq<char>, at: LocationView, n: NonTerminalView) -> bool {
    &&& t1 == (SymbolTableView { non_terminals: t1.non_terminals, ..t0 })
    &&& n is UserDefined
    &&& exists|p: int| 0 <= p < t0.non_terminals.len() && t0.non_terminals[p].0 == name
        && non_terminal_data(n) == (NonTerminalDataView {
            used_at: non_terminal_data(t0.non_terminals[p].1).used_at.push(at),
            ..non_terminal_data(t0.non_terminals[p].1)
        })
        && t1.non_terminals == t0.non_terminals.update(p, (name, n))
}

/// The literal token with text `text` is known to `t`.
pub open spec fn knows_literal(t: SymbolTableView, text: Seq<char>) -> bool {
    has_name(t.literal_tokens, text) && has_name(t.tokens, entry(t.literal_tokens, text))
}

/// `prefix`, `name` and `suffix`, each after the other.
fn framed(prefix: &str, name: &str, suffix: &str) -> (r: String)
    ensures
        r@ == prefix@ + name@ + suffix@,
{
    concat3(prefix, name, suffix)
}

/// The view of an optional symbol.
pub open spec fn opt_symbol_view(o: Option<Symbol>) -> Option<SymbolView> {
    match o {
        Some(s) => Some(s@),
        None => None,
    }
}

/// The view of an optional non terminal.
pub open spec fn opt_non_terminal_view(o: Option<NonTerminal>) -> Option<NonTerminalView> {
    match o {
        Some(n) => Some(n@),
        None => None,
    }
}

/// What `error_symbol` does to the parser's view and gives back.
pub open spec fn error_symbol_effect(v0: SpecificationParserView, v1: SpecificationParserView, at: LocationView, r: SymbolView) -> bool {
    &&& v1 == with_table(v0, v1.symbol_table)
    &&& v1.symbol_table == (SymbolTableView { error_non_terminal: v1.symbol_table.error_non_terminal, ..v0.symbol_table })
    &&& non_terminal_data(v1.symbol_table.error_non_terminal) == (NonTerminalDataView {
        used_at: non_terminal_data(v0.symbol_table.error_non_terminal).used_at.push(at),
        ..non_terminal_data(v0.symbol_table.error_non_terminal)
    })
    &&& r == SymbolView::NonTerminal(v1.symbol_table.error_non_terminal)
}

/// What `tag_from_literal` does to the parser's view and gives back.
pub open spec fn tag_from_literal_effect(v0: SpecificationParserView, v1: SpecificationParserView, text: Seq<char>, at: LocationView, r: TagOrTokenView) -> bool {
    let t0 = v0.symbol_table;
    let t1 = v1.symbol_table;
    if knows_literal(t0, text) {
        r matches TagOrTokenView::Token(t) && token_use(t0, t1, entry(t0.literal_tokens, text), at, t)
            && v1 == with_table(v0, t1)
    } else {
        r is Invalid && v1 == with_error(v0, at, "Literal token \""@ + text + "\" is not known"@)
    }
}

/// What `tag_from_name` does to the parser's view and gives back.
pub open spec fn tag_from_name_effect(v0: SpecificationParserView, v1: SpecificationParserView, name: Seq<char>, at: LocationView, r: TagOrTokenView) -> bool {
    let t0 = v0.symbol_table;
    let t1 = v1.symbol_table;
    if has_name(t0.tokens, name) {
        r matches TagOrTokenView::Token(t) && token_use(t0, t1, name, at, t)
            && v1 == with_table(v0, t1)
    } else if has_name(t0.tags, name) {
        r matches TagOrTokenView::Tag(t) && tag_use(t0, t1, name, at, t)
            && v1 == with_table(v0, t1)
    } else if has_name(t0.non_terminals, name) {
        r is Invalid && (exists|n: NonTerminalView| non_terminal_use(t0, t1, name, at, n))
            && v1 == with_error(with_table(v0, t1), at,
                "Non terminal \""@ + name + "\" cannot be used as precedence tag."@)
    } else {
        let warned = if allowable_name(name) {
            v0
        } else {
            SpecificationParserView {
                diagnostics: v0.diagnostics.push(DiagnosticView {
                    location: at,
                    is_error: false,
                    message: clash_text("tag name"@, name),
                }),
                warning_count: one_more(v0.warning_count),
                ..v0
            }
        };
        r == TagOrTokenView::Tag(crate::tag::fresh_tag(name, at))
            && v1 == with_table(warned, t1)
            && t1 == (SymbolTableView { tags: t1.tags, ..t0 })
            && exists|p: int| 0 <= p <= t0.tags.len() && t1.tags == t0.tags.insert(p, (name, r->Tag_0))
    }
}

/// What `precedence_of_name` does to the parser's view and gives back.
pub open spec fn precedence_of_name_effect(v0: SpecificationParserView, v1: SpecificationParserView, name: Seq<char>, at: LocationView, r: (Associativity, u16)) -> bool {
    let t0 = v0.symbol_table;
    let t1 = v1.symbol_table;
    if has_name(t0.tokens, name) {
        (exists|t: TokenView| token_use(t0, t1, name, at, t) && r == token_precedence(t))
            && v1 == with_table(v0, t1)
    } else if has_name(t0.tags, name) {
        (exists|t: TagView| tag_use(t0, t1, name, at, t) && r == (t.associativity, t.precedence))
            && v1 == with_table(v0, t1)
    } else if has_name(t0.non_terminals, name) {
        r == (Associativity::NonAssoc, 0u16) && (exists|n: NonTerminalView| non_terminal_use(t0, t1, name, at, n))
            && v1 == with_error(with_table(v0, t1), at,
                name + ": illegal precedence tag (must be token or tag)"@)
    } else {
        r == (Associativity::NonAssoc, 0u16)
            && v1 == with_error(v0, at, name + ": unknown symbol"@)
    }
}

/// What `precedence_of_literal` does to the parser's view and gives back.
pub open spec fn precedence_of_literal_effect(v0: SpecificationParserView, v1: SpecificationParserView, lexeme: Seq<char>, at: LocationView, r: (Associativity, u16)) -> bool {
    let t0 = v0.symbol_table;
    let t1 = v1.symbol_table;
    if knows_literal(t0, lexeme) {
        (exists|t: TokenView| token_use(t0, t1, entry(t0.literal_tokens, lexeme), at, t) && r == token_precedence(t))
            && v1 == with_table(v0, t1)
    } else {
        r == (Associativity::NonAssoc, 0u16)
            && v1 == with_error(v0, at, lexeme + ": unknown literal"@)
    }
}

/// What `symbol_from_name` does to the parser's view and gives back.
pub open spec fn symbol_from_name_effect(v0: SpecificationParserView, v1: SpecificationParserView, name: Seq<char>, at: LocationView, r: Option<SymbolView>) -> bool {
    let t0 = v0.symbol_table;
    let t1 = v1.symbol_table;
    if has_name(t0.tokens, name) {
        r matches Some(s) && s matches SymbolView::Terminal(t) && token_use(t0, t1, name, at, t)
            && v1 == with_table(v0, t1)
    } else if has_name(t0.tags, name) {
        r is None && (exists|t: TagView| tag_use(t0, t1, name, at, t))
            && v1 == with_error(with_table(v0, t1), at,
                "Tag \""@ + name + "\" cannot be used in a production"@)
    } else if has_name(t0.non_terminals, name) {
        r matches Some(s) && s matches SymbolView::NonTerminal(n) && non_terminal_use(t0, t1, name, at, n)
            && v1 == with_table(v0, t1)
    } else {
        r matches Some(s) && s == SymbolView::NonTerminal(NonTerminalView::UserDefined(NonTerminalDataView {
            used_at: seq![at],
            ..crate::non_terminal::fresh_non_terminal(name)
        }))
            && v1 == with_table(v0, t1)
            && t1 == (SymbolTableView { non_terminals: t1.non_terminals, ..t0 })
            && exists|p: int| 0 <= p <= t0.non_terminals.len()
                && t1.non_terminals == t0.non_terminals.insert(p, (name, s->NonTerminal_0))
    }
}

/// What `symbol_from_literal` does to the parser's view and gives back.
pub open spec fn symbol_from_literal_effect(v0: SpecificationParserView, v1: SpecificationParserView, lexeme: Seq<char>, at: LocationView, r: Option<SymbolView>) -> bool {
    let t0 = v0.symbol_table;
    let t1 = v1.symbol_table;
    if knows_literal(t0, lexeme) {
        r matches Some(s) && s matches SymbolView::Terminal(t)
            && token_use(t0, t1, entry(t0.literal_tokens, lexeme), at, t)
            && v1 == with_table(v0, t1)
    } else {
        r is None && v1 == with_error(v0, at, lexeme + ": unknown literal)"@)
    }
}

/// What `left_hand_side` does to the parser's view and gives back.
pub open spec fn left_hand_side_effect(v0: SpecificationParserView, v1: SpecificationParserView, name: Seq<char>, at: LocationView, r: Option<NonTerminalView>) -> bool {
    let t0 = v0.symbol_table;
    let t1 = v1.symbol_table;
    if has_name(t0.tokens, name) {
        r is None && (exists|t: TokenView| token_use(t0, t1, name, at, t))
            && v1 == with_error(with_table(v0, t1), at,
                "Token/tag \""@ + name + "\" cannot be used as left hand side of production."@)
    } else if has_name(t0.tags, name) {
        r is None && (exists|t: TagView| tag_use(t0, t1, name, at, t))
            && v1 == with_error(with_table(v0, t1), at,
                "Token/tag \""@ + name + "\" cannot be used as left hand side of production."@)
    } else if has_name(t0.non_terminals, name) {
        r matches Some(n) && v1 == with_table(v0, t1)
            && t1 == (SymbolTableView { non_terminals: t1.non_terminals, ..t0 })
            && exists|p: int| 0 <= p < t0.non_terminals.len() && t0.non_terminals[p].0 == name
                && n is UserDefined
                && non_terminal_data(n) == (NonTerminalDataView {
                    used_at: non_terminal_data(t0.non_terminals[p].1).used_at.push(at),
                    defined_at: non_terminal_data(t0.non_terminals[p].1).defined_at.push(at),
                    ..non_terminal_data(t0.non_terminals[p].1)
                })
                && t1.non_terminals == t0.non_terminals.update(p, (name, n))
    } else {
        let warned = if allowable_name(name) {
            v0
        } else {
            SpecificationParserView {
                diagnostics: v0.diagnostics.push(DiagnosticView {
                    location: at,
                    is_error: false,
                    message: clash_text("Non terminal name"@, name),
                }),
                warning_count: one_more(v0.warning_count),
                ..v0
            }
        };
        r matches Some(n) && n == NonTerminalView::UserDefined(NonTerminalDataView {
            defined_at: seq![at],
            ..crate::non_terminal::fresh_non_terminal(name)
        })
            && v1 == with_table(warned, t1)
            && t1 == (SymbolTableView { non_terminals: t1.non_terminals, ..t0 })
            && exists|p: int| 0 <= p <= t0.non_terminals.len() && t1.non_terminals == t0.non_terminals.insert(p, (name, n))
    }
}

impl SpecificationParser {
    /// Records a use of the literal token with text `text`, where there is one.
    fn use_literal(&mut self, text: &str, location: &Location) -> (r: Option<crate::terminal::Token>)
        requires
            old(self).wf(),
        ensures
            final(self).wf(),
            ({
                let t0 = old(self)@.symbol_table;
                let t1 = final(self)@.symbol_table;
                if knows_literal(t0, text@) {
                    r matches Some(t) && token_use(t0, t1, entry(t0.literal_tokens, text@), location@, t@)
                        && !(t@ is EndToken) && final(self)@ == with_table(old(self)@, t1)
                } else {
                    r is None && final(self)@ == old(self)@
                }
            }),
    {
        proof {
            self.symbol_table.lemma_wf();
        }
        let name = match self.symbol_table.literal_token_name(text) {
            Some(name) => {
                if self.symbol_table.get_token(name.as_str()).is_some() {
                    Some(name.clone())
                } else {
                    None
                }
            },
            None => None,
        };
        match name {
            Some(name) => {
                match self.symbol_table.use_symbol_named(name.as_str(), location) {
                    Some(NamedSymbol::Token(t)) => {
                        proof {
                            let t0 = old(self)@.symbol_table;
                            let p = choose|p: int| 0 <= p < t0.tokens.len() && t0.tokens[p].0 == name@
                                && token_data(t@) == (TokenDataView { used_at: token_data(t0.tokens[p].1).used_at.push(location@), ..token_data(t0.tokens[p].1) })
                                && self@.symbol_table.tokens == t0.tokens.update(p, (name@, t@));
                            self.symbol_table.lemma_wf();
                            assert(self@.symbol_table.tokens[p].1 == t@);
                        }
                        Some(t)
                    },
                    _ => {
                        proof {
                            assert(false);
                        }
                        None
                    },
                }
            },
            None => None,
        }
    }

    /// `Tag: LITERAL`: the token with that text names a precedence tag;
    /// where there is none, that is an error.
    pub fn tag_from_literal(&mut self, text: &str, location: &Location) -> (r: TagOrToken)
        requires
            old(self).wf(),
        ensures
            final(self).wf(),
            tag_from_literal_effect(old(self)@, final(self)@, text@, location@, r@),
    {
        match self.use_literal(text, location) {
            Some(token) => TagOrToken::Token(token),
            None => {
                proof {
                    reveal_strlit("Literal token \"");
                    reveal_strlit("\" is not known");
                }
                let message = framed("Literal token \"", text, "\" is not known");
                self.error(location, message);
                TagOrToken::Invalid
            },
        }
    }

    /// `Tag: IDENT`: the token or tag of that name; a tag of that name is
    /// defined where the name is unknown. A non terminal is no tag.
    pub fn tag_from_name(&mut self, name: &str, location: &Location) -> (r: TagOrToken)
        requires
            old(self).wf(),
        ensures
            final(self).wf(),
            tag_from_name_effect(old(self)@, final(self)@, name@, location@, r@),
    {
        let ghost t0 = self@.symbol_table;
        match self.symbol_table.use_symbol_named(name, location) {
            Some(NamedSymbol::Token(t)) => TagOrToken::Token(t),
            Some(NamedSymbol::Tag(t)) => TagOrToken::Tag(t),
            Some(NamedSymbol::NonTerminal(n)) => {
                proof {
                    reveal_strlit("Non terminal \"");
                    reveal_strlit("\" cannot be used as precedence tag.");
                    assert(non_terminal_use(t0, self@.symbol_table, name@, location@, n@));
                }
                let message = framed("Non terminal \"", name, "\" cannot be used as precedence tag.");
                self.error(location, message);
                TagOrToken::Invalid
            },
            None => {
                proof {
                    reveal_strlit("tag name");
                }
                self.warn_if_clashing("tag name", name, location);
                match self.symbol_table.new_tag(name, location) {
                    Ok(tag) => TagOrToken::Tag(tag),
                    Err(_) => {
                        proof {
                            assert(false);
                        }
                        TagOrToken::Invalid
                    },
                }
            },
        }
    }
}


/// The associativity and precedence that a token carries.
pub open spec fn token_precedence(t: TokenView) -> (Associativity, u16) {
    match t {
        TokenView::EndToken => (Associativity::NonAssoc, 0u16),
        _ => (token_data(t).associativity, token_data(t).precedence),
    }
}

impl SpecificationParser {
    /// `TaggedPrecedence: "%prec" IDENT`: the associativity and precedence of
    /// the token or tag `name`; a non terminal or an unknown name is an error.
    pub fn precedence_of_name(&mut self, name: &str, location: &Location) -> (r: (Associativity, u16))
        requires
            old(self).wf(),
        ensures
            final(self).wf(),
            precedence_of_name_effect(old(self)@, final(self)@, name@, location@, r),
    {
        let ghost t0 = self@.symbol_table;
        match self.symbol_table.use_symbol_named(name, location) {
            Some(NamedSymbol::Token(t)) => {
                let r = (t.associativity(), t.precedence());
                proof {
                    assert(token_use(t0, self@.symbol_table, name@, location@, t@));
                    assert(r == token_precedence(t@));
                }
                r
            },
            Some(NamedSymbol::Tag(t)) => {
                let r = (t.associativity(), t.precedence());
                proof {
                    assert(tag_use(t0, self@.symbol_table, name@, location@, t@));
                    assert(r == (t@.associativity, t@.precedence));
                }
                r
            },
            Some(NamedSymbol::NonTerminal(n)) => {
                proof {
                    reveal_strlit("");
                    reveal_strlit(": illegal precedence tag (must be token or tag)");
                    assert(non_terminal_use(t0, self@.symbol_table, name@, location@, n@));
                    assert(""@ + name@ =~= name@);
                }
                let message = framed("", name, ": illegal precedence tag (must be token or tag)");
                self.error(location, message);
                (Associativity::NonAssoc, 0)
            },
            None => {
                proof {
                    reveal_strlit("");
                    reveal_strlit(": unknown symbol");
                    assert(""@ + name@ =~= name@);
                }
                let message = framed("", name, ": unknown symbol");
                self.error(location, message);
                (Associativity::NonAssoc, 0)
            },
        }
    }

    /// `TaggedPrecedence: "%prec" LITERAL`: the associativity and precedence
    /// of the literal token with text `lexeme`; an unknown literal is an error.
    pub fn precedence_of_literal(&mut self, lexeme: &str, location: &Location) -> (r: (Associativity, u16))
        requires
            old(self).wf(),
        ensures
            final(self).wf(),
            precedence_of_literal_effect(old(self)@, final(self)@, lexeme@, location@, r),
    {
        let ghost t0 = self@.symbol_table;
        match self.use_literal(lexeme, location) {
            Some(t) => {
                let r = (t.associativity(), t.precedence());
                proof {
                    assert(token_use(t0, self@.symbol_table, entry(t0.literal_tokens, lexeme@), location@, t@));
                    assert(r == token_precedence(t@));
                }
                r
            },
            None => {
                proof {
                    reveal_strlit("");
                    reveal_strlit(": unknown literal");
                    assert(""@ + lexeme@ =~= lexeme@);
                }
                let message = framed("", lexeme, ": unknown literal");
                self.error(location, message);
                (Associativity::NonAssoc, 0)
            },
        }
    }

    /// `Symbol: IDENT`: the token or non terminal `name`, a non terminal
    /// being made where the name is unknown; a tag is an error.
    pub fn symbol_from_name(&mut self, name: &str, location: &Location) -> (r: Option<Symbol>)
        requires
            old(self).wf(),
        ensures
            final(self).wf(),
            symbol_from_name_effect(old(self)@, final(self)@, name@, location@, opt_symbol_view(r)),
    {
        let ghost t0 = self@.symbol_table;
        match self.symbol_table.use_symbol_named(name, location) {
            Some(NamedSymbol::Token(t)) => Some(Symbol::Terminal(t)),
            Some(NamedSymbol::Tag(t)) => {
                proof {
                    reveal_strlit("Tag \"");
                    reveal_strlit("\" cannot be used in a production");
                    assert(tag_use(t0, self@.symbol_table, name@, location@, t@));
                }
                let message = framed("Tag \"", name, "\" cannot be used in a production");
                self.error(location, message);
                None
            },
            Some(NamedSymbol::NonTerminal(n)) => Some(Symbol::NonTerminal(n)),
            None => Some(self.symbol_table.symbol_used_at(name, location)),
        }
    }

    /// `Symbol: LITERAL`: the literal token with text `lexeme`; an unknown
    /// literal is an error.
    pub fn symbol_from_literal(&mut self, lexeme: &str, location: &Location) -> (r: Option<Symbol>)
        requires
            old(self).wf(),
        ensures
            final(self).wf(),
            symbol_from_literal_effect(old(self)@, final(self)@, lexeme@, location@, opt_symbol_view(r)),
    {
        match self.use_literal(lexeme, location) {
            Some(t) => Some(Symbol::Terminal(t)),
            None => {
                proof {
                    reveal_strlit("");
                    reveal_strlit(": unknown literal)");
                    assert(""@ + lexeme@ =~= lexeme@);
                }
                let message = framed("", lexeme, ": unknown literal)");
                self.error(location, message);
                None
            },
        }
    }

    /// `Symbol: "%error"`: the error symbol, used at `location`.
    pub fn error_symbol(&mut self, location: &Location) -> (r: Symbol)
        requires
            old(self).wf(),
        ensures
            final(self).wf(),
            error_symbol_effect(old(self)@, final(self)@, location@, r@),
    {
        self.symbol_table.error_symbol_used_at(location)
    }

    /// `ProductionGroupHead: IDENT ":"`: the non terminal `name` is (also)
    /// defined here; a token or tag is no left hand side.
    pub fn left_hand_side(&mut self, name: &str, location: &Location) -> (r: Option<NonTerminal>)
        requires
            old(self).wf(),
        ensures
            final(self).wf(),
            left_hand_side_effect(old(self)@, final(self)@, name@, location@, opt_non_terminal_view(r)),
    {
        let ghost t0 = self@.symbol_table;
        proof {
            reveal_strlit("Token/tag \"");
            reveal_strlit("\" cannot be used as left hand side of production.");
            reveal_strlit("Non terminal name");
        }
        match self.symbol_table.use_symbol_named(name, location) {
            Some(NamedSymbol::Token(t)) => {
                proof {
                    assert(token_use(t0, self@.symbol_table, name@, location@, t@));
                }
                let message = framed("Token/tag \"", name, "\" cannot be used as left hand side of production.");
                self.error(location, message);
                None
            },
            Some(NamedSymbol::Tag(t)) => {
                proof {
                    assert(tag_use(t0, self@.symbol_table, name@, location@, t@));
                }
                let message = framed("Token/tag \"", name, "\" cannot be used as left hand side of production.");
                self.error(location, message);
                None
            },
            Some(NamedSymbol::NonTerminal(_)) => {
                let ghost tm = self@.symbol_table;
                proof {
                    self.symbol_table.lemma_wf();
                }
                match self.symbol_table.non_terminal_defined_at(name, location) {
                    Ok(n) => {
                        proof {
                            let p = choose|p: int| 0 <= p < t0.non_terminals.len() && t0.non_terminals[p].0 == name@
                                && tm.non_terminals == t0.non_terminals.update(p, (name@, tm.non_terminals[p].1))
                                && non_terminal_data(tm.non_terminals[p].1) == (NonTerminalDataView {
                                    used_at: non_terminal_data(t0.non_terminals[p].1).used_at.push(location@),
                                    ..non_terminal_data(t0.non_terminals[p].1)
                                });
                            assert(tm.non_terminals[p].0 == name@);
                            assert(has_name(tm.non_terminals, name@));
                            let q = choose|q: int| 0 <= q < tm.non_terminals.len() && tm.non_terminals[q].0 == name@
                                && non_terminal_data(n@) == (NonTerminalDataView {
                                    defined_at: non_terminal_data(tm.non_terminals[q].1).defined_at.push(location@),
                                    ..non_terminal_data(tm.non_terminals[q].1)
                                })
                                && self@.symbol_table.non_terminals == tm.non_terminals.update(q, (name@, n@));
                            lemma_entry_at(tm.non_terminals, p, name@);
                            lemma_entry_at(tm.non_terminals, q, name@);
                            assert(p == q) by {
                                if p != q {
                                    crate::name_map::lemma_names_distinct(tm.non_terminals, p, q);
                                }
                            }
                            assert(self@.symbol_table.non_terminals =~= t0.non_terminals.update(p, (name@, n@)));
                        }
                        Some(n)
                    },
                    Err(_) => {
                        proof {
                            assert(false);
                        }
                        None
                    },
                }
            },
            None => {
                self.warn_if_clashing("Non terminal name", name, location);
                match self.symbol_table.non_terminal_defined_at(name, location) {
                    Ok(n) => Some(n),
                    Err(_) => {
                        proof {
                            assert(false);
                        }
                        None
                    },
                }
            },
        }
    }
}


/// What `declare_precedence` does to the parser's view, for the things `list` names.
pub open spec fn declare_precedence_effect(v0: SpecificationParserView, v1: SpecificationParserView, associativity: Associativity, list: Seq<TagOrTokenView>) -> bool {
    let t0 = v0.symbol_table;
    let t1 = v1.symbol_table;
    if t0.next_precedence > 0 && no_end_token(list) {
        &&& v1 == with_table(v0, t1)
        &&& t1 == (SymbolTableView {
            tags: t1.tags,
            tokens: t1.tokens,
            next_precedence: (t0.next_precedence - 1) as u16,
            ..t0
        })
        &&& t1.tags.len() == t0.tags.len()
        &&& forall|i: int| 0 <= i < t0.tags.len() ==> #[trigger] t1.tags[i] == (t0.tags[i].0,
            if names_tag(list, t0.tags[i].0) {
                tag_with_precedence(t0.tags[i].1, associativity, t0.next_precedence)
            } else {
                t0.tags[i].1
            })
        &&& t1.tokens.len() == t0.tokens.len()
        &&& forall|i: int| 0 <= i < t0.tokens.len() ==> #[trigger] t1.tokens[i] == (t0.tokens[i].0,
            if names_token(list, t0.tokens[i].0) {
                with_precedence(t0.tokens[i].1, associativity, t0.next_precedence)
            } else {
                t0.tokens[i].1
            })
    } else {
        v1 == v0
    }
}

/// Whether `list` holds the end token.
fn holds_end_token(list: &Vec<TagOrToken>) -> (r: bool)
    ensures
        r == !no_end_token(list@.map_values(|x: TagOrToken| x@)),
{
    let ghost v = list@.map_values(|x: TagOrToken| x@);
    let mut k: usize = 0;
    while k < list.len()
        invariant
            v == list@.map_values(|x: TagOrToken| x@),
            k <= list@.len(),
            forall|j: int| 0 <= j < k ==> !((#[trigger] v[j]) matches TagOrTokenView::Token(t) && t is EndToken),
        decreases list@.len() - k,
    {
        proof {
            assert(v[k as int] == list@[k as int]@);
        }
        match &list[k] {
            TagOrToken::Token(crate::terminal::Token::EndToken) => return true,
            _ => {},
        }
        k = k + 1;
    }
    false
}

impl SpecificationParser {
    /// `%skip`: text that the lexical analyser skips; a rule given twice is
    /// kept once.
    pub fn define_skip_rule(&mut self, rule: &str)
        requires
            old(self).wf(),
        ensures
            final(self).wf(),
            old(self)@.symbol_table.skip_rules.contains(rule@) ==> final(self)@ == old(self)@,
            !old(self)@.symbol_table.skip_rules.contains(rule@) ==> final(self)@ == with_table(old(self)@, SymbolTableView {
                skip_rules: old(self)@.symbol_table.skip_rules.push(rule@),
                ..old(self)@.symbol_table
            }),
    {
        let _ = self.symbol_table.add_skip_rule(rule);
    }

    /// `%left`, `%right` or `%nonassoc`: gives the tags and tokens of `list`
    /// the associativity and the next precedence, which then decreases. Once
    /// the precedences are used up, a declaration changes nothing.
    #[verifier::rlimit(30)]
    pub fn declare_precedence(&mut self, associativity: Associativity, list: &Vec<TagOrToken>)
        requires
            old(self).wf(),
        ensures
            final(self).wf(),
            declare_precedence_effect(old(self)@, final(self)@, associativity, list@.map_values(|x: TagOrToken| x@)),
    {
        if self.symbol_table.next_precedence_left() && !holds_end_token(list) {
            self.symbol_table.set_precedences(associativity, list.as_slice());
        }
    }

    /// `ProductionGroup`: adds a production of `left_hand_side` for each of
    /// `tails`. The first production read also counts as a use of its left
    /// hand side, and of the start symbol, where it is defined.
    pub fn add_productions(&mut self, left_hand_side: &NonTerminal, tails: Vec<ProductionTail>)
        requires
            old(self).wf(),
        ensures
            final(self).wf(),
            final(self)@.productions == old(self)@.productions + tails@.map_values(|t: ProductionTail| (left_hand_side@, t@)),
            final(self)@ == with_table(SpecificationParserView { productions: final(self)@.productions, ..old(self)@ }, final(self)@.symbol_table),
            ({
                let t0 = old(self)@.symbol_table;
                let t1 = final(self)@.symbol_table;
                let d = non_terminal_data(left_hand_side@);
                if old(self)@.productions.len() == 0 && tails@.len() > 0 && left_hand_side@ is UserDefined && d.defined_at.len() > 0 {
                    let ta = SymbolTableView { start_non_terminal: t1.start_non_terminal, ..t0 };
                    &&& non_terminal_data(t1.start_non_terminal) == (NonTerminalDataView {
                        used_at: non_terminal_data(t0.start_non_terminal).used_at.push(d.defined_at[0]),
                        ..non_terminal_data(t0.start_non_terminal)
                    })
                    &&& (t1.start_non_terminal is Start) == (t0.start_non_terminal is Start)
                    &&& has_name(t0.non_terminals, d.name) ==> exists|n: NonTerminalView| non_terminal_use(ta, t1, d.name, d.defined_at[0], n)
                    &&& !has_name(t0.non_terminals, d.name) ==> t1 == ta
                } else {
                    t1 == t0
                }
            }),
    {
        let ghost p0 = self@;
        if self.productions.len() == 0 && tails.len() > 0 {
            match left_hand_side.first_definition() {
                Some(location) => {
                    let _ = self.symbol_table.start_non_terminal_used_at(&location);
                    let ghost ta = self@.symbol_table;
                    let used = self.symbol_table.non_terminal_used_at(left_hand_side.name(), &location);
                    proof {
                        match used {
                            Some(n) => {
                                assert(non_terminal_use(ta, self@.symbol_table, non_terminal_data(left_hand_side@).name, location@, n@));
                            },
                            None => {},
                        }
                    }
                },
                None => {},
            }
        }
        let ghost p1 = self@;
        let mut tails = tails;
        let ghost all = tails@;
        let mut added: Vec<(NonTerminal, ProductionTail)> = Vec::new();
        while tails.len() > 0
            invariant
                tails@.len() <= all.len(),
                all.take(all.len() - tails@.len()) =~= all.take(all.len() - tails@.len()),
                tails@ == all.skip(all.len() - tails@.len()),
                added@.map_values(|p: (NonTerminal, ProductionTail)| (p.0@, p.1@))
                    == all.take(all.len() - tails@.len()).map_values(|t: ProductionTail| (left_hand_side@, t@)),
            decreases tails@.len(),
        {
            let ghost k = all.len() - tails@.len();
            let tail = tails.remove(0);
            proof {
                assert(tail == all[k]);
                assert(tails@ =~= all.skip(k + 1));
            }
            let ghost before = added@;
            added.push((left_hand_side.snapshot(), tail));
            proof {
                assert(all.take(k + 1) =~= all.take(k).push(all[k]));
                assert(added@.map_values(|p: (NonTerminal, ProductionTail)| (p.0@, p.1@)) =~= before.map_values(
                    |p: (NonTerminal, ProductionTail)| (p.0@, p.1@),
                ).push((left_hand_side@, all[k]@)));
            }
        }
        proof {
            assert(all.take(all.len() as int) =~= all);
        }
        let ghost before = self.productions@;
        self.productions.append(&mut added);
        proof {
            assert(self@.productions =~= p0.productions + all.map_values(|t: ProductionTail| (left_hand_side@, t@)));
        }
    }
}


/// What the parser of the specification language keeps for each symbol it
/// has read: the text of a token, or what a reduced production made of it.
#[derive(Debug)]
pub enum AttributeData {
    /// A token's text and where it was found.
    Token(String, Location),
    TagList(Vec<TagOrToken>),
    Tag(TagOrToken),
    SymbolList(Vec<Symbol>),
    /// A symbol of a right hand side; none where it was in error.
    Symbol(Option<Symbol>),
    /// The non terminal that a group of productions defines; none where the
    /// name is not that of a non terminal.
    LeftHandSide(Option<NonTerminal>),
    ProductionTail(ProductionTail),
    ProductionTailList(Vec<ProductionTail>),
    Action(String),
    Predicate(String),
    AssociativePrecedence(Associativity, u16),
    Default,
}

/// The attribute at the front of `rhs`; the default where there is none.
fn first_of(rhs: Vec<AttributeData>) -> (r: AttributeData)
    ensures
        rhs@.len() > 0 ==> r == rhs@[0],
        rhs@.len() == 0 ==> r == AttributeData::Default,
{
    let mut rhs = rhs;
    if rhs.len() > 0 {
        rhs.remove(0)
    } else {
        AttributeData::Default
    }
}

/// The attribute at the back of `rhs`, taken off it; the default where there is none.
fn take_last(rhs: &mut Vec<AttributeData>) -> (r: AttributeData)
    ensures
        old(rhs)@.len() > 0 ==> r == old(rhs)@.last() && final(rhs)@ == old(rhs)@.drop_last(),
        old(rhs)@.len() == 0 ==> r == AttributeData::Default && final(rhs)@ == old(rhs)@,
{
    match rhs.pop() {
        Some(a) => a,
        None => AttributeData::Default,
    }
}

/// A production tail from the attributes of its parts; a part that is
/// missing, or not of its kind, is left out.
pub fn production_tail(
    symbols: AttributeData,
    predicate: AttributeData,
    precedence: AttributeData,
    action: AttributeData,
) -> (r: ProductionTail)
    ensures
        r.right_hand_side@ == match symbols {
            AttributeData::SymbolList(list) => list@,
            _ => Seq::empty(),
        },
        r.predicate == match predicate {
            AttributeData::Predicate(text) => Some(text),
            _ => None,
        },
        r.associative_precedence == match precedence {
            AttributeData::AssociativePrecedence(a, p) => Some((a, p)),
            _ => None,
        },
        r.action == match action {
            AttributeData::Action(text) => Some(text),
            _ => None,
        },
{
    ProductionTail {
        right_hand_side: match symbols {
            AttributeData::SymbolList(list) => list,
            _ => Vec::new(),
        },
        predicate: match predicate {
            AttributeData::Predicate(text) => Some(text),
            _ => None,
        },
        associative_precedence: match precedence {
            AttributeData::AssociativePrecedence(a, p) => Some((a, p)),
            _ => None,
        },
        action: match action {
            AttributeData::Action(text) => Some(text),
            _ => None,
        },
    }
}

/// The text inside the brackets of an action or a predicate token.
fn bracketed_text(a: &AttributeData) -> (r: Option<String>)
    ensures
        match a {
            AttributeData::Token(text, _) => if text@.len() >= 4 {
                r matches Some(t) && t@ == text@.subrange(2, text@.len() - 2)
            } else {
                r is None
            },
            _ => r is None,
        },
{
    match a {
        AttributeData::Token(text, _) => {
            if text.as_str().unicode_len() >= 4 {
                Some(inner_text(text.as_str()))
            } else {
                None
            }
        },
        _ => None,
    }
}

/// The parts of a production tail that production `id` (one of 38 to 49)
/// reads from its right hand side `rhs`: the symbols, the predicate, the
/// tagged precedence and the action, each the default where the production
/// has no such part.
pub open spec fn tail_parts(id: u32, rhs: Seq<AttributeData>) -> (AttributeData, AttributeData, AttributeData, AttributeData) {
    let d = AttributeData::Default;
    if id == 39 {
        (d, d, d, rhs[0])
    } else if id == 40 {
        (d, rhs[0], d, rhs[1])
    } else if id == 41 {
        (d, rhs[0], d, d)
    } else if id == 42 {
        (rhs[0], rhs[1], rhs[2], rhs[3])
    } else if id == 43 {
        (rhs[0], rhs[1], rhs[2], d)
    } else if id == 44 {
        (rhs[0], rhs[1], d, rhs[2])
    } else if id == 45 {
        (rhs[0], rhs[1], d, d)
    } else if id == 46 {
        (rhs[0], d, rhs[1], rhs[2])
    } else if id == 47 {
        (rhs[0], d, rhs[1], d)
    } else if id == 48 {
        (rhs[0], d, d, rhs[1])
    } else if id == 49 {
        (rhs[0], d, d, d)
    } else {
        (d, d, d, d)
    }
}

/// The length of the right hand side of production `id` (one of 38 to 49).
pub open spec fn tail_len(id: u32) -> nat {
    if id == 38 {
        0
    } else if id == 39 || id == 41 || id == 49 {
        1
    } else if id == 40 || id == 45 || id == 47 || id == 48 {
        2
    } else if id == 43 || id == 44 || id == 46 {
        3
    } else {
        4
    }
}

/// `t` is the production tail made of `parts`, as `production_tail` makes it.
pub open spec fn tail_made_of(t: ProductionTail, parts: (AttributeData, AttributeData, AttributeData, AttributeData)) -> bool {
    &&& t.right_hand_side@ == match parts.0 {
        AttributeData::SymbolList(list) => list@,
        _ => Seq::empty(),
    }
    &&& t.predicate == match parts.1 {
        AttributeData::Predicate(text) => Some(text),
        _ => None,
    }
    &&& t.associative_precedence == match parts.2 {
        AttributeData::AssociativePrecedence(a, p) => Some((a, p)),
        _ => None,
    }
    &&& t.action == match parts.3 {
        AttributeData::Action(text) => Some(text),
        _ => None,
    }
}

/// What the semantic action of the production numbered `production_id`
/// does: from the parser `s0` and the attributes `rhs` of the right hand
/// side, it gives the parser `s1` and the attribute `r` of the left hand side.
pub open spec fn semantic_effect(
    s0: SpecificationParserView,
    s1: SpecificationParserView,
    production_id: u32,
    rhs: Seq<AttributeData>,
    r: AttributeData,
) -> bool {
    &&& (28 <= production_id <= 29 || 32 <= production_id <= 33 || 36 <= production_id <= 51 || 54 <= production_id <= 55)
        ==> s1 == s0
    &&& !(production_id == 4 || production_id == 7 || production_id == 10 || production_id == 11 || production_id == 15
        || production_id == 16 || production_id == 22 || 25 <= production_id <= 58) ==> s1 == s0
    &&& !(28 <= production_id <= 31 || 35 <= production_id <= 58) ==> (rhs.len() > 0 ==> r == rhs[0])
        && (rhs.len() == 0 ==> r == AttributeData::Default)
    &&& production_id == 50 && rhs.len() == 1 ==> match rhs[0] {
        AttributeData::Token(text, _) => text@.len() >= 4 ==> (r matches AttributeData::Action(a) && a@ == text@.subrange(2, text@.len() - 2)),
        _ => true,
    }
    &&& production_id == 51 && rhs.len() == 1 ==> match rhs[0] {
        AttributeData::Token(text, _) => text@.len() >= 4 ==> (r matches AttributeData::Predicate(a) && a@ == text@.subrange(2, text@.len() - 2)),
        _ => true,
    }
    &&& production_id == 4 && rhs.len() == 2 ==> match rhs[1] {
        AttributeData::Token(text, at) => s1 == (SpecificationParserView {
            injection: Some((without_quotes(text@), at@)),
            ..s0
        }),
        _ => s1 == s0,
    }
    &&& production_id == 7 && rhs.len() == 3 ==> match rhs[1] {
        AttributeData::Token(text, _) => text@.len() >= 4 ==> s1 == (SpecificationParserView {
            preamble: text@.subrange(2, text@.len() - 2),
            ..s0
        }),
        _ => s1 == s0,
    }
    &&& production_id == 10 && rhs.len() == 2 ==> match rhs[1] {
        AttributeData::Token(text, _) => s1 == (SpecificationParserView { attribute_type: text@, ..s0 }),
        _ => s1 == s0,
    }
    &&& production_id == 11 && rhs.len() == 2 ==> match rhs[1] {
        AttributeData::Token(text, _) => s1 == (SpecificationParserView { target_type: text@, ..s0 }),
        _ => s1 == s0,
    }
    &&& production_id == 15 && rhs.len() == 3 ==> match (rhs[1], rhs[2]) {
        (AttributeData::Token(name, at), AttributeData::Token(pattern, _)) => {
            &&& has_name(s1.symbol_table.tokens, name@)
            &&& entry(s1.symbol_table.tokens, name@) == defined_token(name@, pattern@, at@)
            &&& s1.productions == s0.productions
            &&& s1.symbol_table.non_terminals == s0.symbol_table.non_terminals
            &&& s1.error_count == if has_name(s0.symbol_table.tokens, name@)
                || has_name(texts_of_kind(s0.symbol_table, pattern@), pattern@) {
                one_more(s0.error_count)
            } else {
                s0.error_count
            }
        },
        _ => s1 == s0,
    }
    &&& production_id == 22 && rhs.len() == 2 ==> match rhs[1] {
        AttributeData::Token(rule, _) => s1.symbol_table.skip_rules.contains(rule@)
            && s1 == with_table(s0, s1.symbol_table),
        _ => s1 == s0,
    }
    &&& production_id == 16 && rhs.len() == 1 ==> match rhs[0] {
        AttributeData::Token(name, at) => clash_warning_effect(s0, s1, "token name"@, name@, at@),
        _ => s1 == s0,
    }
    &&& 25 <= production_id <= 27 && rhs.len() == 2 ==> match rhs[1] {
        AttributeData::TagList(list) => declare_precedence_effect(
            s0,
            s1,
            if production_id == 25 {
                Associativity::Left
            } else if production_id == 26 {
                Associativity::Right
            } else {
                Associativity::NonAssoc
            },
            list@.map_values(|x: TagOrToken| x@),
        ),
        _ => s1 == s0,
    }
    &&& production_id == 30 && rhs.len() == 1 ==> match rhs[0] {
        AttributeData::Token(text, at) => r matches AttributeData::Tag(t) && tag_from_literal_effect(s0, s1, text@, at@, t@),
        _ => s1 == s0,
    }
    &&& production_id == 31 && rhs.len() == 1 ==> match rhs[0] {
        AttributeData::Token(name, at) => r matches AttributeData::Tag(t) && tag_from_name_effect(s0, s1, name@, at@, t@),
        _ => s1 == s0,
    }
    &&& production_id == 35 && rhs.len() == 2 ==> match rhs[0] {
        AttributeData::Token(name, at) => r matches AttributeData::LeftHandSide(n)
            && left_hand_side_effect(s0, s1, name@, at@, opt_non_terminal_view(n)),
        _ => s1 == s0,
    }
    &&& production_id == 52 && rhs.len() == 2 ==> match rhs[1] {
        AttributeData::Token(name, at) => r matches AttributeData::AssociativePrecedence(a, p)
            && precedence_of_name_effect(s0, s1, name@, at@, (a, p)),
        _ => s1 == s0,
    }
    &&& production_id == 53 && rhs.len() == 2 ==> match rhs[1] {
        AttributeData::Token(lexeme, at) => r matches AttributeData::AssociativePrecedence(a, p)
            && precedence_of_literal_effect(s0, s1, lexeme@, at@, (a, p)),
        _ => s1 == s0,
    }
    &&& production_id == 56 && rhs.len() == 1 ==> match rhs[0] {
        AttributeData::Token(name, at) => r matches AttributeData::Symbol(o)
            && symbol_from_name_effect(s0, s1, name@, at@, opt_symbol_view(o)),
        _ => s1 == s0,
    }
    &&& production_id == 57 && rhs.len() == 1 ==> match rhs[0] {
        AttributeData::Token(lexeme, at) => r matches AttributeData::Symbol(o)
            && symbol_from_literal_effect(s0, s1, lexeme@, at@, opt_symbol_view(o)),
        _ => s1 == s0,
    }
    &&& production_id == 58 && rhs.len() == 1 ==> match rhs[0] {
        AttributeData::Token(_, at) => r matches AttributeData::Symbol(Some(s)) && error_symbol_effect(s0, s1, at@, s@),
        _ => s1 == s0,
    }
    &&& 38 <= production_id <= 49 && rhs.len() == tail_len(production_id) ==> (r matches AttributeData::ProductionTail(t)
        && tail_made_of(t, tail_parts(production_id, rhs)))
    &&& production_id == 28 && rhs.len() == 1 ==> match rhs[0] {
        AttributeData::Tag(t) => r matches AttributeData::TagList(l) && l@ == seq![t],
        _ => r matches AttributeData::TagList(l) && l@.len() == 0,
    }
    &&& production_id == 29 && rhs.len() == 2 ==> match (rhs[0], rhs[1]) {
        (AttributeData::TagList(l0), AttributeData::Tag(t)) => r matches AttributeData::TagList(l) && l@ == l0@.push(t),
        (AttributeData::TagList(l0), _) => r matches AttributeData::TagList(l) && l@ == l0@,
        _ => r matches AttributeData::TagList(l) && l@.len() == 0,
    }
    &&& production_id == 36 && rhs.len() == 1 ==> match rhs[0] {
        AttributeData::ProductionTail(t) => r matches AttributeData::ProductionTailList(l) && l@ == seq![t],
        _ => r matches AttributeData::ProductionTailList(l) && l@.len() == 0,
    }
    &&& production_id == 37 && rhs.len() == 3 ==> match (rhs[0], rhs[2]) {
        (AttributeData::ProductionTailList(l0), AttributeData::ProductionTail(t)) => r matches AttributeData::ProductionTailList(l)
            && l@ == l0@.push(t),
        (AttributeData::ProductionTailList(l0), _) => r matches AttributeData::ProductionTailList(l) && l@ == l0@,
        _ => r matches AttributeData::ProductionTailList(l) && l@.len() == 0,
    }
    &&& production_id == 54 && rhs.len() == 1 ==> match rhs[0] {
        AttributeData::Symbol(Some(x)) => r matches AttributeData::SymbolList(l) && l@ == seq![x],
        _ => r matches AttributeData::SymbolList(l) && l@.len() == 0,
    }
    &&& production_id == 55 && rhs.len() == 2 ==> match (rhs[0], rhs[1]) {
        (AttributeData::SymbolList(l0), AttributeData::Symbol(Some(x))) => r matches AttributeData::SymbolList(l) && l@ == l0@.push(x),
        (AttributeData::SymbolList(l0), _) => r matches AttributeData::SymbolList(l) && l@ == l0@,
        _ => r matches AttributeData::SymbolList(l) && l@.len() == 0,
    }
    &&& production_id == 34 && rhs.len() == 3 ==> match (rhs[0], rhs[1]) {
        (AttributeData::LeftHandSide(Some(lhs)), AttributeData::ProductionTailList(tails)) =>
            s1.productions == s0.productions + tails@.map_values(|t: ProductionTail| (lhs@, t@))
            && s1.diagnostics == s0.diagnostics,
        _ => s1 == s0,
    }
}

impl SpecificationParser {
    /// Carries out the semantic action of the production numbered
    /// `production_id` on the attributes `rhs` of its right hand side.
    fn perform_semantic_action(&mut self, production_id: u32, rhs: Vec<AttributeData>) -> (r: AttributeData)
        requires
            old(self).wf(),
        ensures
            final(self).wf(),
            (28 <= production_id <= 29 || 32 <= production_id <= 33 || 36 <= production_id <= 51 || 54 <= production_id <= 55)
                ==> final(self)@ == old(self)@,
            !(production_id == 4 || production_id == 7 || production_id == 10 || production_id == 11 || production_id == 15
                || production_id == 16 || production_id == 22 || 25 <= production_id <= 58) ==> final(self)@ == old(self)@,
            !(28 <= production_id <= 31 || 35 <= production_id <= 58) ==> (rhs@.len() > 0 ==> r == rhs@[0])
                && (rhs@.len() == 0 ==> r == AttributeData::Default),
            production_id == 50 && rhs@.len() == 1 ==> match rhs@[0] {
                AttributeData::Token(text, _) => text@.len() >= 4 ==> (r matches AttributeData::Action(a) && a@ == text@.subrange(2, text@.len() - 2)),
                _ => true,
            },
            production_id == 51 && rhs@.len() == 1 ==> match rhs@[0] {
                AttributeData::Token(text, _) => text@.len() >= 4 ==> (r matches AttributeData::Predicate(a) && a@ == text@.subrange(2, text@.len() - 2)),
                _ => true,
            },
            production_id == 4 && rhs@.len() == 2 ==> match rhs@[1] {
                AttributeData::Token(text, at) => final(self)@ == (SpecificationParserView {
                    injection: Some((without_quotes(text@), at@)),
                    ..old(self)@
                }),
                _ => final(self)@ == old(self)@,
            },
            production_id == 7 && rhs@.len() == 3 ==> match rhs@[1] {
                AttributeData::Token(text, _) => text@.len() >= 4 ==> final(self)@ == (SpecificationParserView {
                    preamble: text@.subrange(2, text@.len() - 2),
                    ..old(self)@
                }),
                _ => final(self)@ == old(self)@,
            },
            production_id == 10 && rhs@.len() == 2 ==> match rhs@[1] {
                AttributeData::Token(text, _) => final(self)@ == (SpecificationParserView { attribute_type: text@, ..old(self)@ }),
                _ => final(self)@ == old(self)@,
            },
            production_id == 11 && rhs@.len() == 2 ==> match rhs@[1] {
                AttributeData::Token(text, _) => final(self)@ == (SpecificationParserView { target_type: text@, ..old(self)@ }),
                _ => final(self)@ == old(self)@,
            },
            production_id == 15 && rhs@.len() == 3 ==> match (rhs@[1], rhs@[2]) {
                (AttributeData::Token(name, at), AttributeData::Token(pattern, _)) => {
                    &&& has_name(final(self)@.symbol_table.tokens, name@)
                    &&& entry(final(self)@.symbol_table.tokens, name@) == defined_token(name@, pattern@, at@)
                    &&& final(self)@.productions == old(self)@.productions
                    &&& final(self)@.symbol_table.non_terminals == old(self)@.symbol_table.non_terminals
                    &&& final(self)@.error_count == if has_name(old(self)@.symbol_table.tokens, name@)
                        || has_name(texts_of_kind(old(self)@.symbol_table, pattern@), pattern@) {
                        one_more(old(self)@.error_count)
                    } else {
                        old(self)@.error_count
                    }
                },
                _ => final(self)@ == old(self)@,
            },
            production_id == 22 && rhs@.len() == 2 ==> match rhs@[1] {
                AttributeData::Token(rule, _) => final(self)@.symbol_table.skip_rules.contains(rule@)
                    && final(self)@ == with_table(old(self)@, final(self)@.symbol_table),
                _ => final(self)@ == old(self)@,
            },
            production_id == 16 && rhs@.len() == 1 ==> match rhs@[0] {
                AttributeData::Token(name, at) => clash_warning_effect(old(self)@, final(self)@, "token name"@, name@, at@),
                _ => final(self)@ == old(self)@,
            },
            25 <= production_id <= 27 && rhs@.len() == 2 ==> match rhs@[1] {
                AttributeData::TagList(list) => declare_precedence_effect(
                    old(self)@,
                    final(self)@,
                    if production_id == 25 {
                        Associativity::Left
                    } else if production_id == 26 {
                        Associativity::Right
                    } else {
                        Associativity::NonAssoc
                    },
                    list@.map_values(|x: TagOrToken| x@),
                ),
                _ => final(self)@ == old(self)@,
            },
            production_id == 30 && rhs@.len() == 1 ==> match rhs@[0] {
                AttributeData::Token(text, at) => r matches AttributeData::Tag(t) && tag_from_literal_effect(old(self)@, final(self)@, text@, at@, t@),
                _ => final(self)@ == old(self)@,
            },
            production_id == 31 && rhs@.len() == 1 ==> match rhs@[0] {
                AttributeData::Token(name, at) => r matches AttributeData::Tag(t) && tag_from_name_effect(old(self)@, final(self)@, name@, at@, t@),
                _ => final(self)@ == old(self)@,
            },
            production_id == 35 && rhs@.len() == 2 ==> match rhs@[0] {
                AttributeData::Token(name, at) => r matches AttributeData::LeftHandSide(n)
                    && left_hand_side_effect(old(self)@, final(self)@, name@, at@, opt_non_terminal_view(n)),
                _ => final(self)@ == old(self)@,
            },
            production_id == 52 && rhs@.len() == 2 ==> match rhs@[1] {
                AttributeData::Token(name, at) => r matches AttributeData::AssociativePrecedence(a, p)
                    && precedence_of_name_effect(old(self)@, final(self)@, name@, at@, (a, p)),
                _ => final(self)@ == old(self)@,
            },
            production_id == 53 && rhs@.len() == 2 ==> match rhs@[1] {
                AttributeData::Token(lexeme, at) => r matches AttributeData::AssociativePrecedence(a, p)
                    && precedence_of_literal_effect(old(self)@, final(self)@, lexeme@, at@, (a, p)),
                _ => final(self)@ == old(self)@,
            },
            production_id == 56 && rhs@.len() == 1 ==> match rhs@[0] {
                AttributeData::Token(name, at) => r matches AttributeData::Symbol(o)
                    && symbol_from_name_effect(old(self)@, final(self)@, name@, at@, opt_symbol_view(o)),
                _ => final(self)@ == old(self)@,
            },
            production_id == 57 && rhs@.len() == 1 ==> match rhs@[0] {
                AttributeData::Token(lexeme, at) => r matches AttributeData::Symbol(o)
                    && symbol_from_literal_effect(old(self)@, final(self)@, lexeme@, at@, opt_symbol_view(o)),
                _ => final(self)@ == old(self)@,
            },
            production_id == 58 && rhs@.len() == 1 ==> match rhs@[0] {
                AttributeData::Token(_, at) => r matches AttributeData::Symbol(Some(s)) && error_symbol_effect(old(self)@, final(self)@, at@, s@),
                _ => final(self)@ == old(self)@,
            },
            38 <= production_id <= 49 && rhs@.len() == tail_len(production_id) ==> (r matches AttributeData::ProductionTail(t)
                && tail_made_of(t, tail_parts(production_id, rhs@))),
            production_id == 28 && rhs@.len() == 1 ==> match rhs@[0] {
                AttributeData::Tag(t) => r matches AttributeData::TagList(l) && l@ == seq![t],
                _ => r matches AttributeData::TagList(l) && l@.len() == 0,
            },
            production_id == 29 && rhs@.len() == 2 ==> match (rhs@[0], rhs@[1]) {
                (AttributeData::TagList(l0), AttributeData::Tag(t)) => r matches AttributeData::TagList(l) && l@ == l0@.push(t),
                (AttributeData::TagList(l0), _) => r matches AttributeData::TagList(l) && l@ == l0@,
                _ => r matches AttributeData::TagList(l) && l@.len() == 0,
            },
            production_id == 36 && rhs@.len() == 1 ==> match rhs@[0] {
                AttributeData::ProductionTail(t) => r matches AttributeData::ProductionTailList(l) && l@ == seq![t],
                _ => r matches AttributeData::ProductionTailList(l) && l@.len() == 0,
            },
            production_id == 37 && rhs@.len() == 3 ==> match (rhs@[0], rhs@[2]) {
                (AttributeData::ProductionTailList(l0), AttributeData::ProductionTail(t)) => r matches AttributeData::ProductionTailList(l)
                    && l@ == l0@.push(t),
                (AttributeData::ProductionTailList(l0), _) => r matches AttributeData::ProductionTailList(l) && l@ == l0@,
                _ => r matches AttributeData::ProductionTailList(l) && l@.len() == 0,
            },
            production_id == 54 && rhs@.len() == 1 ==> match rhs@[0] {
                AttributeData::Symbol(Some(x)) => r matches AttributeData::SymbolList(l) && l@ == seq![x],
                _ => r matches AttributeData::SymbolList(l) && l@.len() == 0,
            },
            production_id == 55 && rhs@.len() == 2 ==> match (rhs@[0], rhs@[1]) {
                (AttributeData::SymbolList(l0), AttributeData::Symbol(Some(x))) => r matches AttributeData::SymbolList(l) && l@ == l0@.push(x),
                (AttributeData::SymbolList(l0), _) => r matches AttributeData::SymbolList(l) && l@ == l0@,
                _ => r matches AttributeData::SymbolList(l) && l@.len() == 0,
            },
            production_id == 34 && rhs@.len() == 3 ==> match (rhs@[0], rhs@[1]) {
                (AttributeData::LeftHandSide(Some(lhs)), AttributeData::ProductionTailList(tails)) =>
                    final(self)@.productions == old(self)@.productions + tails@.map_values(|t: ProductionTail| (lhs@, t@))
                    && final(self)@.diagnostics == old(self)@.diagnostics,
                _ => final(self)@ == old(self)@,
            },
    {
        let mut rhs = rhs;
        let n = rhs.len();
        match production_id {
            4 => {
                // InjectionHead: "%inject" LITERAL
                if n == 2 {
                    if let AttributeData::Token(text, location) = &rhs[1] {
                        self.request_injection(text.as_str(), location);
                    }
                }
                first_of(rhs)
            },
            7 => {
                // Preamble: OptionalInjection RUSTCODE OptionalInjection
                if n == 3 {
                    if let AttributeData::Token(text, _) = &rhs[1] {
                        if text.as_str().unicode_len() >= 4 {
                            self.set_preamble(text.as_str());
                        }
                    }
                }
                first_of(rhs)
            },
            10 => {
                // AttributeType: "%attr" IDENT
                if n == 2 {
                    if let AttributeData::Token(text, _) = &rhs[1] {
                        self.set_attribute_type(text.as_str());
                    }
                }
                first_of(rhs)
            },
            11 => {
                // TargetType: "%target" IDENT
                if n == 2 {
                    if let AttributeData::Token(text, _) = &rhs[1] {
                        self.set_target_type(text.as_str());
                    }
                }
                first_of(rhs)
            },
            15 => {
                // TokenDefinition: "%token" NewTokenName Pattern
                if n == 3 {
                    if let (AttributeData::Token(name, location), AttributeData::Token(pattern, _)) = (&rhs[1], &rhs[2]) {
                        self.define_token(name.as_str(), location, pattern.as_str());
                    }
                }
                first_of(rhs)
            },
            16 => {
                // NewTokenName: IDENT ?( !Self::is_allowable_name($1.matched_text()) ?)
                if n == 1 {
                    if let AttributeData::Token(name, location) = &rhs[0] {
                        self.warn_if_clashing("token name", name.as_str(), location);
                    }
                }
                first_of(rhs)
            },
            22 => {
                // SkipDefinition: "%skip" REGEX
                if n == 2 {
                    if let AttributeData::Token(rule, _) = &rhs[1] {
                        let ghost before = self@.symbol_table.skip_rules;
                        self.define_skip_rule(rule.as_str());
                        proof {
                            if !before.contains(rule@) {
                                assert(self@.symbol_table.skip_rules[before.len() as int] == rule@);
                            }
                        }
                    }
                }
                first_of(rhs)
            },
            25 | 26 | 27 => {
                // PrecedenceDefinition: "%left" | "%right" | "%nonassoc" TagList
                let associativity = if production_id == 25 {
                    Associativity::Left
                } else if production_id == 26 {
                    Associativity::Right
                } else {
                    Associativity::NonAssoc
                };
                if n == 2 {
                    if let AttributeData::TagList(list) = &rhs[1] {
                        self.declare_precedence(associativity, list);
                    }
                }
                first_of(rhs)
            },
            28 => {
                // TagList: Tag
                match take_last(&mut rhs) {
                    AttributeData::Tag(tag) => AttributeData::TagList(vec![tag]),
                    _ => AttributeData::TagList(Vec::new()),
                }
            },
            29 => {
                // TagList: TagList Tag
                let tag = take_last(&mut rhs);
                match (take_last(&mut rhs), tag) {
                    (AttributeData::TagList(list), AttributeData::Tag(tag)) => {
                        let mut list = list;
                        list.push(tag);
                        AttributeData::TagList(list)
                    },
                    (AttributeData::TagList(list), _) => AttributeData::TagList(list),
                    _ => AttributeData::TagList(Vec::new()),
                }
            },
            30 => {
                // Tag: LITERAL
                if n == 1 {
                    if let AttributeData::Token(text, location) = &rhs[0] {
                        return AttributeData::Tag(self.tag_from_literal(text.as_str(), location));
                    }
                }
                AttributeData::Tag(TagOrToken::Invalid)
            },
            31 => {
                // Tag: IDENT
                if n == 1 {
                    if let AttributeData::Token(name, location) = &rhs[0] {
                        return AttributeData::Tag(self.tag_from_name(name.as_str(), location));
                    }
                }
                AttributeData::Tag(TagOrToken::Invalid)
            },
            34 => {
                // ProductionGroup: ProductionGroupHead ProductionTailList "."
                if n == 3 {
                    let _ = take_last(&mut rhs);
                    let tails = take_last(&mut rhs);
                    if let (AttributeData::LeftHandSide(Some(lhs)), AttributeData::ProductionTailList(tails)) = (&rhs[0], tails) {
                        self.add_productions(lhs, tails);
                    }
                }
                first_of(rhs)
            },
            35 => {
                // ProductionGroupHead: IDENT ":"
                if n == 2 {
                    if let AttributeData::Token(name, location) = &rhs[0] {
                        return AttributeData::LeftHandSide(self.left_hand_side(name.as_str(), location));
                    }
                }
                AttributeData::LeftHandSide(None)
            },
            36 => {
                // ProductionTailList: ProductionTail
                match take_last(&mut rhs) {
                    AttributeData::ProductionTail(tail) => AttributeData::ProductionTailList(vec![tail]),
                    _ => AttributeData::ProductionTailList(Vec::new()),
                }
            },
            37 => {
                // ProductionTailList: ProductionTailList "|" ProductionTail
                let tail = take_last(&mut rhs);
                let _ = take_last(&mut rhs);
                match (take_last(&mut rhs), tail) {
                    (AttributeData::ProductionTailList(list), AttributeData::ProductionTail(tail)) => {
                        let mut list = list;
                        list.push(tail);
                        AttributeData::ProductionTailList(list)
                    },
                    (AttributeData::ProductionTailList(list), _) => AttributeData::ProductionTailList(list),
                    _ => AttributeData::ProductionTailList(Vec::new()),
                }
            },
            38 => {
                // ProductionTail: <empty>
                AttributeData::ProductionTail(production_tail(
                    AttributeData::Default,
                    AttributeData::Default,
                    AttributeData::Default,
                    AttributeData::Default,
                ))
            },
            39 => {
                // ProductionTail: Action
                let action = take_last(&mut rhs);
                AttributeData::ProductionTail(production_tail(AttributeData::Default, AttributeData::Default, AttributeData::Default, action))
            },
            40 => {
                // ProductionTail: Predicate Action
                let action = take_last(&mut rhs);
                let predicate = take_last(&mut rhs);
                AttributeData::ProductionTail(production_tail(AttributeData::Default, predicate, AttributeData::Default, action))
            },
            41 => {
                // ProductionTail: Predicate
                let predicate = take_last(&mut rhs);
                AttributeData::ProductionTail(production_tail(AttributeData::Default, predicate, AttributeData::Default, AttributeData::Default))
            },
            42 => {
                // ProductionTail: SymbolList Predicate TaggedPrecedence Action
                let action = take_last(&mut rhs);
                let precedence = take_last(&mut rhs);
                let predicate = take_last(&mut rhs);
                let symbols = take_last(&mut rhs);
                AttributeData::ProductionTail(production_tail(symbols, predicate, precedence, action))
            },
            43 => {
                // ProductionTail: SymbolList Predicate TaggedPrecedence
                let precedence = take_last(&mut rhs);
                let predicate = take_last(&mut rhs);
                let symbols = take_last(&mut rhs);
                AttributeData::ProductionTail(production_tail(symbols, predicate, precedence, AttributeData::Default))
            },
            44 => {
                // ProductionTail: SymbolList Predicate Action
                let action = take_last(&mut rhs);
                let predicate = take_last(&mut rhs);
                let symbols = take_last(&mut rhs);
                AttributeData::ProductionTail(production_tail(symbols, predicate, AttributeData::Default, action))
            },
            45 => {
                // ProductionTail: SymbolList Predicate
                let predicate = take_last(&mut rhs);
                let symbols = take_last(&mut rhs);
                AttributeData::ProductionTail(production_tail(symbols, predicate, AttributeData::Default, AttributeData::Default))
            },
            46 => {
                // ProductionTail: SymbolList TaggedPrecedence Action
                let action = take_last(&mut rhs);
                let precedence = take_last(&mut rhs);
                let symbols = take_last(&mut rhs);
                AttributeData::ProductionTail(production_tail(symbols, AttributeData::Default, precedence, action))
            },
            47 => {
                // ProductionTail: SymbolList TaggedPrecedence
                let precedence = take_last(&mut rhs);
                let symbols = take_last(&mut rhs);
                AttributeData::ProductionTail(production_tail(symbols, AttributeData::Default, precedence, AttributeData::Default))
            },
            48 => {
                // ProductionTail: SymbolList Action
                let action = take_last(&mut rhs);
                let symbols = take_last(&mut rhs);
                AttributeData::ProductionTail(production_tail(symbols, AttributeData::Default, AttributeData::Default, action))
            },
            49 => {
                // ProductionTail: SymbolList
                let symbols = take_last(&mut rhs);
                AttributeData::ProductionTail(production_tail(symbols, AttributeData::Default, AttributeData::Default, AttributeData::Default))
            },
            50 => {
                // Action: ACTION
                if n == 1 {
                    if let Some(text) = bracketed_text(&rhs[0]) {
                        return AttributeData::Action(text);
                    }
                }
                first_of(rhs)
            },
            51 => {
                // Predicate: PREDICATE
                if n == 1 {
                    if let Some(text) = bracketed_text(&rhs[0]) {
                        return AttributeData::Predicate(text);
                    }
                }
                first_of(rhs)
            },
            52 => {
                // TaggedPrecedence: "%prec" IDENT
                if n == 2 {
                    if let AttributeData::Token(name, location) = &rhs[1] {
                        let (a, p) = self.precedence_of_name(name.as_str(), location);
                        return AttributeData::AssociativePrecedence(a, p);
                    }
                }
                AttributeData::AssociativePrecedence(Associativity::NonAssoc, 0)
            },
            53 => {
                // TaggedPrecedence: "%prec" LITERAL
                if n == 2 {
                    if let AttributeData::Token(lexeme, location) = &rhs[1] {
                        let (a, p) = self.precedence_of_literal(lexeme.as_str(), location);
                        return AttributeData::AssociativePrecedence(a, p);
                    }
                }
                AttributeData::AssociativePrecedence(Associativity::NonAssoc, 0)
            },
            54 => {
                // SymbolList: Symbol
                match take_last(&mut rhs) {
                    AttributeData::Symbol(Some(symbol)) => AttributeData::SymbolList(vec![symbol]),
                    _ => AttributeData::SymbolList(Vec::new()),
                }
            },
            55 => {
                // SymbolList: SymbolList Symbol
                let symbol = take_last(&mut rhs);
                match (take_last(&mut rhs), symbol) {
                    (AttributeData::SymbolList(list), AttributeData::Symbol(Some(symbol))) => {
                        let mut list = list;
                        list.push(symbol);
                        AttributeData::SymbolList(list)
                    },
                    (AttributeData::SymbolList(list), _) => AttributeData::SymbolList(list),
                    _ => AttributeData::SymbolList(Vec::new()),
                }
            },
            56 => {
                // Symbol: IDENT
                if n == 1 {
                    if let AttributeData::Token(name, location) = &rhs[0] {
                        return AttributeData::Symbol(self.symbol_from_name(name.as_str(), location));
                    }
                }
                AttributeData::Symbol(None)
            },
            57 => {
                // Symbol: LITERAL
                if n == 1 {
                    if let AttributeData::Token(lexeme, location) = &rhs[0] {
                        return AttributeData::Symbol(self.symbol_from_literal(lexeme.as_str(), location));
                    }
                }
                AttributeData::Symbol(None)
            },
            58 => {
                // Symbol: "%error"
                if n == 1 {
                    if let AttributeData::Token(_, location) = &rhs[0] {
                        return AttributeData::Symbol(Some(self.error_symbol(location)));
                    }
                }
                AttributeData::Symbol(None)
            },
            _ => first_of(rhs),
        }
    }
}

/// The associative precedence of a production tail comes from its `%prec`
/// tag alone: a tail read with a tagged precedence (after its symbols, and
/// after its predicate where it has one) takes the associativity and
/// precedence of that tag, and a tail read without one has none (so that
/// the precedence of the production is then taken from its symbols).
pub proof fn law_tail_precedence_from_tag(
    s0: SpecificationParserView,
    s1: SpecificationParserView,
    production_id: u32,
    rhs: Seq<AttributeData>,
    r: AttributeData,
)
    requires
        semantic_effect(s0, s1, production_id, rhs, r),
        (production_id == 42 && rhs.len() == 4) || (production_id == 43 && rhs.len() == 3)
            || (production_id == 46 && rhs.len() == 3) || (production_id == 47 && rhs.len() == 2)
            || (production_id == 38 && rhs.len() == 0) || (production_id == 39 && rhs.len() == 1)
            || (production_id == 40 && rhs.len() == 2) || (production_id == 41 && rhs.len() == 1)
            || (production_id == 44 && rhs.len() == 3) || (production_id == 45 && rhs.len() == 2)
            || (production_id == 48 && rhs.len() == 2) || (production_id == 49 && rhs.len() == 1),
    ensures
        r matches AttributeData::ProductionTail(t) && t.associative_precedence == if production_id == 42 || production_id == 43 {
            match rhs[2] {
                AttributeData::AssociativePrecedence(a, p) => Some((a, p)),
                _ => None,
            }
        } else if production_id == 46 || production_id == 47 {
            match rhs[1] {
                AttributeData::AssociativePrecedence(a, p) => Some((a, p)),
                _ => None,
            }
        } else {
            None::<(Associativity, u16)>
        },
{
}

/// The text of the symbol on top of a stack with attributes `attributes`:
/// that of a token, and nothing for any other symbol or an empty stack.
pub open spec fn top_symbol_text(attributes: Seq<AttributeData>) -> Seq<char> {
    if attributes.len() >= 1 {
        match attributes.last() {
            AttributeData::Token(text, _) => text@,
            _ => Seq::empty(),
        }
    } else {
        Seq::empty()
    }
}

impl Parser for SpecificationParser {
    type NonTerminal = AANonTerminal;
    type Attribute = AttributeData;

    open spec fn production_table(&self, production_id: u32) -> Option<(AANonTerminal, usize)> {
        if production_id < PRODUCTION_COUNT {
            Some(production(production_id))
        } else {
            None
        }
    }

    open spec fn goto_table(&self, lhs: AANonTerminal, state: u32) -> Option<u32> {
        goto(lhs, state)
    }

    open spec fn viable_table(&self, tag: u32) -> Set<u32> {
        Set::empty()
    }

    open spec fn error_goto_table(&self, state: u32) -> Option<u32> {
        None
    }

    open spec fn semantic_action(&self, production_id: u32, rhs: Seq<AttributeData>, next: Self, r: AttributeData) -> bool {
        semantic_effect(self@, next@, production_id, rhs, r)
    }

    fn next_action(&self, stack: &ParseStack<AANonTerminal, AttributeData>, tag: u32) -> (r: Action)
        ensures
            forall|t: AATerminal| terminal_tag(t) == tag && top_state(stack@) < STATE_COUNT
                ==> r == action(top_state(stack@), t, top_symbol_text(stack@.attributes)),
            forall|t: AATerminal| terminal_tag(t) == tag && top_state(stack@) < STATE_COUNT
                ==> ((r == Action::SyntaxError) == !expects(top_state(stack@), t)),
            (top_state(stack@) >= STATE_COUNT || forall|t: AATerminal| terminal_tag(t) != tag) ==> r == Action::SyntaxError,
    {
        let state = stack.current_state();
        match AATerminal::from_tag(tag) {
            None => Action::SyntaxError,
            Some(terminal) => {
                if state < STATE_COUNT {
                    proof {
                        reveal_strlit("");
                        assert forall|t: AATerminal| terminal_tag(t) == tag implies t == terminal by {
                            lemma_terminal_tag_injective(t, terminal);
                        }
                    }
                    if stack.attributes_len() >= 1 {
                        match stack.at_len_minus_n(1) {
                            AttributeData::Token(text, _) => next_action(state, terminal, text.as_str()),
                            _ => next_action(state, terminal, ""),
                        }
                    } else {
                        next_action(state, terminal, "")
                    }
                } else {
                    Action::SyntaxError
                }
            },
        }
    }

    fn production_data(&self, production_id: u32) -> (r: Option<(AANonTerminal, usize)>)
        ensures
            r == if production_id < PRODUCTION_COUNT {
                Some(production(production_id))
            } else {
                None
            },
    {
        if production_id < PRODUCTION_COUNT {
            Some(production_data(production_id))
        } else {
            None
        }
    }

    fn goto_state(&self, lhs: &AANonTerminal, state: u32) -> (r: Option<u32>)
        ensures
            r == goto(*lhs, state),
    {
        goto_state(*lhs, state)
    }

    fn look_ahead_set(&self, state: u32) -> (r: OrderedSet)
        ensures
            state < STATE_COUNT ==> forall|t: AATerminal| #[trigger] r@.contains(terminal_tag(t)) == expects(state, t),
            state < STATE_COUNT ==> forall|x: u32| #[trigger] r@.contains(x) ==> x < 21,
            state >= STATE_COUNT ==> r@.is_empty(),
    {
        if state < STATE_COUNT {
            look_ahead_set(state)
        } else {
            OrderedSet::new()
        }
    }

    fn viable_error_recovery_states(&self, tag: u32) -> (r: OrderedSet)
        ensures
            r@.is_empty(),
    {
        OrderedSet::new()
    }

    fn error_goto_state(&self, state: u32) -> (r: Option<u32>)
        ensures
            r is None,
    {
        None
    }

    fn token_attribute(&self, tag: u32, lexeme: &str, location: &Location) -> (r: AttributeData)
        ensures
            r matches AttributeData::Token(text, at) && text@ == lexeme@ && at@ == location@,
    {
        AttributeData::Token(lexeme.to_string(), location.snapshot())
    }

    closed spec fn valid(&self) -> bool {
        self.wf()
    }

    fn do_semantic_action(&mut self, production_id: u32, rhs: Vec<AttributeData>) -> (r: AttributeData)
        ensures
            semantic_effect(old(self)@, final(self)@, production_id, rhs@, r),
    {
        self.perform_semantic_action(production_id, rhs)
    }
}


/// The position of the entry named `name`.
pub open spec fn name_index(entries: Seq<(Seq<char>, NonTerminalView)>, name: Seq<char>) -> int {
    choose|i: int| 0 <= i < entries.len() && (#[trigger] entries[i]).0 == name
}

/// The number of a non terminal in the specification that `t` makes: the
/// start symbol is 0, the error symbol 1, and the others follow in the order
/// of their names.
pub open spec fn nt_index(t: SymbolTableView, n: NonTerminalView) -> Option<u32> {
    match n {
        NonTerminalView::Start(_) => Some(0u32),
        NonTerminalView::Error(_) => Some(1u32),
        NonTerminalView::UserDefined(d) => if has_name(t.non_terminals, d.name) && t.non_terminals.len() + 2 < u32::MAX {
            Some((name_index(t.non_terminals, d.name) + 2) as u32)
        } else {
            None
        },
    }
}

/// A symbol as the specification that `t` makes knows it.
pub open spec fn grammar_symbol_of(t: SymbolTableView, s: SymbolView) -> Option<GrammarSymbolView> {
    match s {
        SymbolView::Terminal(token) => Some(GrammarSymbolView::Terminal(token)),
        SymbolView::NonTerminal(n) => match nt_index(t, n) {
            Some(i) => Some(GrammarSymbolView::NonTerminal(i)),
            None => None,
        },
    }
}

/// A right hand side as the specification that `t` makes knows it; none
/// where one of its symbols is unknown to `t`.
pub open spec fn converted(t: SymbolTableView, rhs: Seq<SymbolView>) -> Option<Seq<GrammarSymbolView>>
    decreases rhs.len(),
{
    if rhs.len() == 0 {
        Some(Seq::empty())
    } else {
        match (converted(t, rhs.drop_last()), grammar_symbol_of(t, rhs.last())) {
            (Some(a), Some(b)) => Some(a.push(b)),
            _ => None,
        }
    }
}

/// A production read, as the specification takes it: its left hand side,
/// its right hand side, its tagged precedence and its predicate.
pub type ReadProduction = (u32, Seq<GrammarSymbolView>, Option<(Associativity, u16)>, Option<Seq<char>>);

/// The productions read whose symbols `t` all knows, in the order they were read.
pub open spec fn readable(t: SymbolTableView, ps: Seq<(NonTerminalView, ProductionTailView)>) -> Seq<ReadProduction>
    decreases ps.len(),
{
    if ps.len() == 0 {
        Seq::empty()
    } else {
        let rest = readable(t, ps.drop_last());
        match (nt_index(t, ps.last().0), converted(t, ps.last().1.right_hand_side)) {
            (Some(l), Some(r)) => rest.push((l, r, ps.last().1.associative_precedence, ps.last().1.predicate)),
            _ => rest,
        }
    }
}

/// The associativity and precedence of a production: the tagged ones, else
/// those of the first token of its right hand side.
pub open spec fn resolved_precedence(tagged: Option<(Associativity, u16)>, rhs: Seq<GrammarSymbolView>) -> (Associativity, u16) {
    match tagged {
        Some(ap) => ap,
        None => match rhs_precedence(rhs) {
            Some(ap) => ap,
            None => (Associativity::NonAssoc, 0u16),
        },
    }
}

/// The production numbered `ident` made of `p`.
pub open spec fn production_item(ident: nat, p: ReadProduction) -> ProductionView {
    ProductionView {
        ident: ident as u32,
        left_hand_side: p.0,
        right_hand_side: p.1,
        associativity: resolved_precedence(p.2, p.1).0,
        precedence: resolved_precedence(p.2, p.1).1,
        predicate: p.3,
    }
}

/// The start production, which derives `first` from the start symbol.
pub open spec fn start_production(first: u32) -> ProductionView {
    ProductionView {
        ident: 0,
        left_hand_side: 0,
        right_hand_side: seq![GrammarSymbolView::NonTerminal(first)],
        associativity: Associativity::NonAssoc,
        precedence: 0,
        predicate: None,
    }
}

/// The productions of `list` numbered from 1, after the start production
/// that derives the left hand side of the first.
pub open spec fn production_views(list: Seq<ReadProduction>) -> Seq<ProductionView>
    decreases list.len(),
{
    if list.len() == 0 {
        Seq::empty()
    } else if list.len() == 1 {
        seq![start_production(list[0].0), production_item(1, list[0])]
    } else {
        production_views(list.drop_last()).push(production_item(list.len(), list.last()))
    }
}

/// `views` followed by the production that derives nothing from the error
/// symbol, which comes last so that it has the least precedence.
pub open spec fn with_error_production(views: Seq<ProductionView>) -> Seq<ProductionView> {
    let list = if views.len() == 0 {
        seq![start_production(1)]
    } else {
        views
    };
    list.push(ProductionView {
        ident: list.len() as u32,
        left_hand_side: 1,
        right_hand_side: Seq::empty(),
        associativity: Associativity::NonAssoc,
        precedence: 0,
        predicate: None,
    })
}

/// The names of the non terminals of the specification that `t` makes.
pub open spec fn non_terminal_names(t: SymbolTableView) -> Seq<Seq<char>> {
    seq!["AAStart"@, "AAError"@] + t.non_terminals.map_values(|e: (Seq<char>, NonTerminalView)| e.0)
}

/// The number of the non terminal `n` in the specification that `table` makes.
fn non_terminal_index(table: &SymbolTable, n: &NonTerminal) -> (r: Option<u32>)
    requires
        table.wf(),
    ensures
        r == nt_index(table@, n@),
{
    match n {
        NonTerminal::Start(_) => Some(0),
        NonTerminal::Error(_) => Some(1),
        NonTerminal::UserDefined(_) => {
            let count = table.non_terminals_len();
            match table.non_terminal_position(n.name()) {
                Some(p) => {
                    if count < u32::MAX as usize - 2 {
                        proof {
                            let name = non_terminal_data(n@).name;
                            let nts = table@.non_terminals;
                            table.lemma_wf();
                            let i = name_index(nts, name);
                            if i != p {
                                lemma_names_distinct(nts, i, p as int);
                            }
                        }
                        Some((p + 2) as u32)
                    } else {
                        None
                    }
                },
                None => None,
            }
        },
    }
}

/// The right hand side `rhs` as the specification that `table` makes knows it.
fn converted_rhs(table: &SymbolTable, rhs: &Vec<Symbol>) -> (r: Option<Vec<GrammarSymbol>>)
    requires
        table.wf(),
    ensures
        match r {
            Some(v) => converted(table@, symbols_of(rhs@)) == Some(symbols_view(v@)),
            None => converted(table@, symbols_of(rhs@)) is None,
        },
{
    let ghost s = symbols_of(rhs@);
    let mut v: Vec<GrammarSymbol> = Vec::new();
    let mut k: usize = 0;
    proof {
        assert(s.take(0) =~= Seq::<SymbolView>::empty());
        assert(symbols_view(v@) =~= Seq::<GrammarSymbolView>::empty());
    }
    while k < rhs.len()
        invariant
            table.wf(),
            s == symbols_of(rhs@),
            k <= rhs@.len(),
            converted(table@, s.take(k as int)) == Some(symbols_view(v@)),
        decreases rhs@.len() - k,
    {
        proof {
            assert(s.take(k + 1).drop_last() =~= s.take(k as int));
            assert(s.take(k + 1).last() == rhs@[k as int]@);
        }
        let g = match &rhs[k] {
            Symbol::Terminal(t) => Some(GrammarSymbol::Terminal(t.snapshot())),
            Symbol::NonTerminal(n) => match non_terminal_index(table, n) {
                Some(i) => Some(GrammarSymbol::NonTerminal(i)),
                None => None,
            },
        };
        match g {
            Some(g) => {
                let ghost before = v@;
                v.push(g);
                proof {
                    assert(symbols_view(v@) =~= symbols_view(before).push(g@));
                }
            },
            None => {
                proof {
                    lemma_converted_none(table@, s, k as int + 1);
                    assert(s.take(s.len() as int) =~= s);
                }
                return None;
            },
        }
        k = k + 1;
    }
    proof {
        assert(s.take(k as int) =~= s);
    }
    Some(v)
}

/// A right hand side with an unknown symbol in its first `k` symbols is
/// not converted.
proof fn lemma_converted_none(t: SymbolTableView, s: Seq<SymbolView>, k: int)
    requires
        0 <= k <= s.len(),
        converted(t, s.take(k)) is None,
    ensures
        converted(t, s) is None,
    decreases s.len() - k,
{
    if k < s.len() {
        assert(s.take(k + 1).drop_last() =~= s.take(k));
        lemma_converted_none(t, s, k + 1);
    } else {
        assert(s.take(k) =~= s);
    }
}


/// A converted right hand side names only non terminals of the specification.
proof fn lemma_converted_below(t: SymbolTableView, s: Seq<SymbolView>)
    requires
        converted(t, s) is Some,
    ensures
        symbols_below(converted(t, s)->0, (t.non_terminals.len() + 2) as nat),
        converted(t, s)->0.len() == s.len(),
    decreases s.len(),
{
    if s.len() > 0 {
        lemma_converted_below(t, s.drop_last());
        let a = converted(t, s.drop_last())->0;
        let b = grammar_symbol_of(t, s.last())->0;
        assert forall|i: int| 0 <= i < a.push(b).len() implies match #[trigger] a.push(b)[i] {
            GrammarSymbolView::NonTerminal(x) => x < (t.non_terminals.len() + 2) as nat,
            GrammarSymbolView::Terminal(_) => true,
        } by {
            if i < a.len() {
                assert(a.push(b)[i] == a[i]);
            } else {
                match s.last() {
                    SymbolView::NonTerminal(n) => {
                        match n {
                            NonTerminalView::UserDefined(d) => {
                                let j = name_index(t.non_terminals, d.name);
                                assert(0 <= j < t.non_terminals.len());
                            },
                            _ => {},
                        }
                    },
                    _ => {},
                }
            }
        }
    }
}

/// The productions read number fewer than the productions given.
proof fn lemma_readable_len(t: SymbolTableView, ps: Seq<(NonTerminalView, ProductionTailView)>)
    ensures
        readable(t, ps).len() <= ps.len(),
    decreases ps.len(),
{
    if ps.len() > 0 {
        lemma_readable_len(t, ps.drop_last());
    }
}

/// No production read has a right hand side as long as the largest `usize`.
pub open spec fn right_hand_sides_fit(ps: Seq<(NonTerminalView, ProductionTailView)>) -> bool {
    forall|i: int| 0 <= i < ps.len() ==> (#[trigger] ps[i]).1.right_hand_side.len() < usize::MAX
}

impl SpecificationParser {
    /// The specification read. Its non terminals are the start symbol, the
    /// error symbol and those of the symbol table in the order of their
    /// names; its productions are the start production, those read whose
    /// symbols are all known, and last the production that derives nothing
    /// from the error symbol. `None` where there are more non terminals or
    /// productions than a `u32` numbers.
    pub fn specification(&self) -> (r: Option<Specification>)
        requires
            self.wf(),
        ensures
            match r {
                Some(spec) => {
                    &&& spec.wf()
                    &&& spec.names() == non_terminal_names(self@.symbol_table)
                    &&& spec.start() == 0
                    &&& spec.error_nt() == 1
                    &&& spec.prods() == with_error_production(production_views(readable(self@.symbol_table, self@.productions)))
                    &&& spec.attribute_type_text() == self@.attribute_type
                    &&& spec.target_type_text() == self@.target_type
                    &&& spec.errors() == self@.error_count
                    &&& spec.warnings() == self@.warning_count
                },
                None => self@.symbol_table.non_terminals.len() + 2 >= u32::MAX
                    || self@.productions.len() + 4 >= u32::MAX
                    || !right_hand_sides_fit(self@.productions),
            },
    {
        let ghost t = self@.symbol_table;
        let ghost ps = self@.productions;
        let count = self.symbol_table.non_terminals_len();
        if count >= u32::MAX as usize - 2 || self.productions.len() >= u32::MAX as usize - 4 {
            return None;
        }
        let mut j: usize = 0;
        while j < self.productions.len()
            invariant
                ps == self@.productions,
                j <= ps.len(),
                forall|i: int| 0 <= i < j ==> (#[trigger] ps[i]).1.right_hand_side.len() < usize::MAX,
            decreases ps.len() - j,
        {
            proof {
                assert(ps[j as int] == (self.productions@[j as int].0@, self.productions@[j as int].1@));
            }
            if self.productions[j].1.right_hand_side.len() == usize::MAX {
                return None;
            }
            j = j + 1;
        }
        proof {
            reveal_strlit("AAStart");
            reveal_strlit("AAError");
        }
        let mut names: Vec<String> = Vec::new();
        names.push(String::from_str("AAStart"));
        names.push(String::from_str("AAError"));
        let mut p: usize = 0;
        while p < count
            invariant
                t == self@.symbol_table,
                count == t.non_terminals.len(),
                p <= count,
                names@.map_values(|n: String| n@) == seq!["AAStart"@, "AAError"@] + t.non_terminals.take(p as int).map_values(
                    |e: (Seq<char>, NonTerminalView)| e.0,
                ),
            decreases count - p,
        {
            let name = self.symbol_table.non_terminal_name_at(p);
            let ghost before = names@;
            names.push(name);
            proof {
                assert(t.non_terminals.take(p + 1) =~= t.non_terminals.take(p as int).push(t.non_terminals[p as int]));
                assert(names@.map_values(|n: String| n@) =~= before.map_values(|n: String| n@).push(t.non_terminals[p as int].0));
                assert(t.non_terminals.take(p + 1).map_values(|e: (Seq<char>, NonTerminalView)| e.0) =~= t.non_terminals.take(
                    p as int,
                ).map_values(|e: (Seq<char>, NonTerminalView)| e.0).push(t.non_terminals[p as int].0));
            }
            p = p + 1;
        }
        proof {
            assert(t.non_terminals.take(count as int) =~= t.non_terminals);
            assert(names@.map_values(|n: String| n@) =~= non_terminal_names(t));
        }
        let mut spec = Specification::new(names, 0, 1);
        let mut k: usize = 0;
        proof {
            spec.lemma_wf_has_prods_wf();
            assert(ps.take(0) =~= Seq::<(NonTerminalView, ProductionTailView)>::empty());
        }
        while k < self.productions.len()
            invariant
                self.wf(),
                t == self@.symbol_table,
                ps == self@.productions,
                count == t.non_terminals.len(),
                count + 2 < u32::MAX,
                ps.len() + 4 < u32::MAX,
                right_hand_sides_fit(ps),
                k <= ps.len(),
                spec.prods_wf(),
                spec.names() == non_terminal_names(t),
                spec.non_terminals() == count + 2,
                spec.start() == 0,
                spec.error_nt() == 1,
                spec.prods() == production_views(readable(t, ps.take(k as int))),
            decreases ps.len() - k,
        {
            let ghost list = readable(t, ps.take(k as int));
            proof {
                assert(ps.take(k + 1).drop_last() =~= ps.take(k as int));
                assert(ps.take(k + 1).last() == ps[k as int]);
                assert(ps[k as int] == (self.productions@[k as int].0@, self.productions@[k as int].1@));
                lemma_readable_len(t, ps.take(k as int));
                assert(production_views(list).len() == if list.len() == 0 { 0 } else { list.len() + 1 }) by {
                    lemma_production_views_len(list);
                }
            }
            let lhs = &self.productions[k].0;
            let tail = &self.productions[k].1;
            match (non_terminal_index(&self.symbol_table, lhs), converted_rhs(&self.symbol_table, &tail.right_hand_side)) {
                (Some(l), Some(rhs)) => {
                    proof {
                        lemma_converted_below(t, symbols_of(tail.right_hand_side@));
                        let j = name_index(t.non_terminals, non_terminal_data(lhs@).name);
                        assert(ps[k as int].1.right_hand_side.len() < usize::MAX);
                    }
                    let predicate = match &tail.predicate {
                        Some(text) => Some(text.clone()),
                        None => None,
                    };
                    let ghost old_prods = spec.prods();
                    spec.new_production(l, rhs, tail.associative_precedence, predicate);
                    proof {
                        let x: ReadProduction = (l, symbols_view(rhs@), tail@.associative_precedence, tail@.predicate);
                        assert(readable(t, ps.take(k + 1)) == list.push(x));
                        assert(list.push(x).drop_last() =~= list);
                        if list.len() > 0 {
                            assert(spec.prods() =~= old_prods.push(spec.prods().last()));
                        } else {
                            assert(spec.prods() =~= seq![spec.prods()[0], spec.prods()[1]]);
                        }
                    }
                },
                _ => {
                    proof {
                        assert(readable(t, ps.take(k + 1)) == list);
                    }
                },
            }
            k = k + 1;
        }
        proof {
            assert(ps.take(ps.len() as int) =~= ps);
            let list = readable(t, ps);
            lemma_readable_len(t, ps);
            lemma_production_views_len(list);
        }
        let ghost before = spec.prods();
        let nothing: Vec<GrammarSymbol> = Vec::new();
        proof {
            assert(symbols_view(nothing@) =~= Seq::<GrammarSymbolView>::empty());
        }
        spec.new_production(1, nothing, None, None);
        proof {
            assert(rhs_precedence(Seq::<GrammarSymbolView>::empty()) is None);
            if before.len() > 0 {
                assert(spec.prods() =~= before.push(spec.prods().last()));
            } else {
                assert(spec.prods() =~= seq![spec.prods()[0], spec.prods()[1]]);
            }
        }
        spec.set_firsts_data();
        spec.set_attribute_type(self.attribute_type.clone());
        spec.set_target_type(self.target_type.clone());
        spec.set_error_and_warning_counts(self.error_count, self.warning_count);
        Some(spec)
    }
}

/// There is one view more than productions, for the start production.
proof fn lemma_production_views_len(list: Seq<ReadProduction>)
    ensures
        production_views(list).len() == if list.len() == 0 { 0 } else { list.len() + 1 },
    decreases list.len(),
{
    if list.len() > 1 {
        lemma_production_views_len(list.drop_last());
    }
}


/// The warning on a symbol that is never used.
pub open spec fn unused_text(name: Seq<char>) -> Seq<char> {
    "Symbol \""@ + name + "\" is not used"@
}

/// The error on a symbol that is used but never defined.
pub open spec fn undefined_text(name: Seq<char>) -> Seq<char> {
    "Symbol \""@ + name + "\" is not defined"@
}

/// A warning, at its definition, for each token of `ts` that is not used.
pub open spec fn unused_token_warnings(ts: Seq<(Seq<char>, TokenView)>) -> Seq<DiagnosticView>
    decreases ts.len(),
{
    if ts.len() == 0 {
        Seq::empty()
    } else {
        let d = token_data(ts.last().1);
        unused_token_warnings(ts.drop_last()) + if d.used_at.len() == 0 {
            seq![DiagnosticView { location: d.defined_at, is_error: false, message: unused_text(d.name) }]
        } else {
            Seq::empty()
        }
    }
}

/// A warning, at its definition, for each tag of `ts` that is not used.
pub open spec fn unused_tag_warnings(ts: Seq<(Seq<char>, TagView)>) -> Seq<DiagnosticView>
    decreases ts.len(),
{
    if ts.len() == 0 {
        Seq::empty()
    } else {
        let t = ts.last().1;
        unused_tag_warnings(ts.drop_last()) + if t.used_at.len() == 0 {
            seq![DiagnosticView { location: t.defined_at, is_error: false, message: unused_text(t.name) }]
        } else {
            Seq::empty()
        }
    }
}

/// A warning, at its first definition, for each non terminal of `ns` that
/// is defined but not used.
pub open spec fn unused_non_terminal_warnings(ns: Seq<(Seq<char>, NonTerminalView)>) -> Seq<DiagnosticView>
    decreases ns.len(),
{
    if ns.len() == 0 {
        Seq::empty()
    } else {
        let d = non_terminal_data(ns.last().1);
        unused_non_terminal_warnings(ns.drop_last()) + if d.used_at.len() == 0 && d.defined_at.len() > 0 {
            seq![DiagnosticView { location: d.defined_at[0], is_error: false, message: unused_text(d.name) }]
        } else {
            Seq::empty()
        }
    }
}

/// An error at each use of each non terminal of `ns` that is not defined.
pub open spec fn undefined_errors(ns: Seq<(Seq<char>, NonTerminalView)>) -> Seq<DiagnosticView>
    decreases ns.len(),
{
    if ns.len() == 0 {
        Seq::empty()
    } else {
        let d = non_terminal_data(ns.last().1);
        undefined_errors(ns.drop_last()) + if d.defined_at.len() == 0 {
            d.used_at.map_values(|l: LocationView| DiagnosticView { location: l, is_error: true, message: undefined_text(d.name) })
        } else {
            Seq::empty()
        }
    }
}

/// How many non terminals of `ns` are not defined.
pub open spec fn undefined_count(ns: Seq<(Seq<char>, NonTerminalView)>) -> nat
    decreases ns.len(),
{
    if ns.len() == 0 {
        0
    } else {
        undefined_count(ns.drop_last()) + if non_terminal_data(ns.last().1).defined_at.len() == 0 {
            1nat
        } else {
            0nat
        }
    }
}

/// The views of a list of diagnostics.
pub open spec fn diagnostics_view(ds: Seq<Diagnostic>) -> Seq<DiagnosticView> {
    ds.map_values(|d: Diagnostic| d@)
}

/// Adds `d` to `ds`.
fn push_diagnostic(ds: &mut Vec<Diagnostic>, d: Diagnostic)
    ensures
        diagnostics_view(final(ds)@) == diagnostics_view(old(ds)@).push(d@),
{
    let ghost before = ds@;
    ds.push(d);
    proof {
        assert(diagnostics_view(ds@) =~= diagnostics_view(before).push(d@));
    }
}

impl SpecificationParser {
    /// A warning for each symbol that is not used: the tokens, then the tags,
    /// then the non terminals, each in the order of their names.
    pub fn unused_symbol_warnings(&self) -> (r: Vec<Diagnostic>)
        requires
            self.wf(),
        ensures
            diagnostics_view(r@) == unused_token_warnings(self@.symbol_table.tokens) + unused_tag_warnings(self@.symbol_table.tags)
                + unused_non_terminal_warnings(self@.symbol_table.non_terminals),
    {
        proof {
            reveal_strlit("Symbol \"");
            reveal_strlit("\" is not used");
            self.symbol_table.lemma_wf();
        }
        let ghost t = self@.symbol_table;
        let mut r: Vec<Diagnostic> = Vec::new();
        let tokens = self.symbol_table.tokens();
        let mut i: usize = 0;
        proof {
            assert(t.tokens.take(0) =~= Seq::<(Seq<char>, TokenView)>::empty());
            assert(diagnostics_view(r@) =~= Seq::<DiagnosticView>::empty());
        }
        while i < tokens.len()
            invariant
                t == self@.symbol_table,
                tokens@.len() == t.tokens.len(),
                forall|j: int| 0 <= j < tokens@.len() ==> (#[trigger] tokens@[j])@ == t.tokens[j].1,
                forall|j: int| 0 <= j < t.tokens.len() ==> !((#[trigger] t.tokens[j]).1 is EndToken),
                i <= tokens@.len(),
                diagnostics_view(r@) == unused_token_warnings(t.tokens.take(i as int)),
            decreases tokens@.len() - i,
        {
            proof {
                assert(t.tokens.take(i + 1).drop_last() =~= t.tokens.take(i as int));
                assert(t.tokens.take(i + 1).last() == t.tokens[i as int]);
                assert(!(t.tokens[i as int].1 is EndToken));
            }
            let token = &tokens[i];
            if token.is_unused() {
                let message = framed("Symbol \"", token.name(), "\" is not used");
                push_diagnostic(&mut r, Diagnostic { location: token.defined_at().snapshot(), is_error: false, message });
            } else {
                proof {
                    assert(diagnostics_view(r@) + Seq::<DiagnosticView>::empty() =~= diagnostics_view(r@));
                }
            }
            i = i + 1;
        }
        proof {
            assert(t.tokens.take(i as int) =~= t.tokens);
        }
        let ghost after_tokens = diagnostics_view(r@);
        let tags = self.symbol_table.tags();
        let mut i: usize = 0;
        proof {
            assert(t.tags.take(0) =~= Seq::<(Seq<char>, TagView)>::empty());
            assert(after_tokens + Seq::<DiagnosticView>::empty() =~= after_tokens);
        }
        while i < tags.len()
            invariant
                t == self@.symbol_table,
                tags@.len() == t.tags.len(),
                forall|j: int| 0 <= j < tags@.len() ==> (#[trigger] tags@[j])@ == t.tags[j].1,
                i <= tags@.len(),
                diagnostics_view(r@) == after_tokens + unused_tag_warnings(t.tags.take(i as int)),
            decreases tags@.len() - i,
        {
            proof {
                assert(t.tags.take(i + 1).drop_last() =~= t.tags.take(i as int));
                assert(t.tags.take(i + 1).last() == t.tags[i as int]);
            }
            let tag = &tags[i];
            if tag.is_unused() {
                let message = framed("Symbol \"", tag.name(), "\" is not used");
                push_diagnostic(&mut r, Diagnostic { location: tag.defined_at().snapshot(), is_error: false, message });
                proof {
                    assert(diagnostics_view(r@) =~= after_tokens + unused_tag_warnings(t.tags.take(i + 1)));
                }
            } else {
                proof {
                    assert(diagnostics_view(r@) =~= after_tokens + unused_tag_warnings(t.tags.take(i + 1)));
                }
            }
            i = i + 1;
        }
        proof {
            assert(t.tags.take(i as int) =~= t.tags);
        }
        let ghost after_tags = diagnostics_view(r@);
        let non_terminals = self.symbol_table.non_terminals();
        let mut i: usize = 0;
        proof {
            assert(t.non_terminals.take(0) =~= Seq::<(Seq<char>, NonTerminalView)>::empty());
            assert(after_tags + Seq::<DiagnosticView>::empty() =~= after_tags);
        }
        while i < non_terminals.len()
            invariant
                t == self@.symbol_table,
                non_terminals@.len() == t.non_terminals.len(),
                forall|j: int| 0 <= j < non_terminals@.len() ==> (#[trigger] non_terminals@[j])@ == t.non_terminals[j].1,
                forall|j: int| 0 <= j < t.non_terminals.len() ==> (#[trigger] t.non_terminals[j]).1 is UserDefined,
                i <= non_terminals@.len(),
                diagnostics_view(r@) == after_tags + unused_non_terminal_warnings(t.non_terminals.take(i as int)),
            decreases non_terminals@.len() - i,
        {
            proof {
                assert(t.non_terminals.take(i + 1).drop_last() =~= t.non_terminals.take(i as int));
                assert(t.non_terminals.take(i + 1).last() == t.non_terminals[i as int]);
                assert(t.non_terminals[i as int].1 is UserDefined);
            }
            let n = &non_terminals[i];
            let unused = n.is_unused();
            match n.first_definition() {
                Some(location) => {
                    if unused {
                        let message = framed("Symbol \"", n.name(), "\" is not used");
                        push_diagnostic(&mut r, Diagnostic { location, is_error: false, message });
                        proof {
                            assert(diagnostics_view(r@) =~= after_tags + unused_non_terminal_warnings(t.non_terminals.take(i + 1)));
                        }
                    } else {
                        proof {
                            assert(diagnostics_view(r@) =~= after_tags + unused_non_terminal_warnings(t.non_terminals.take(i + 1)));
                        }
                    }
                },
                None => {
                    proof {
                        assert(diagnostics_view(r@) =~= after_tags + unused_non_terminal_warnings(t.non_terminals.take(i + 1)));
                    }
                },
            }
            i = i + 1;
        }
        proof {
            assert(t.non_terminals.take(i as int) =~= t.non_terminals);
            assert(diagnostics_view(r@) =~= unused_token_warnings(t.tokens) + unused_tag_warnings(t.tags)
                + unused_non_terminal_warnings(t.non_terminals));
        }
        r
    }

    /// An error at each use of each non terminal that is not defined, in the
    /// order of their names; and how many such non terminals there are.
    pub fn undefined_symbol_errors(&self) -> (r: (Vec<Diagnostic>, usize))
        requires
            self.wf(),
        ensures
            diagnostics_view(r.0@) == undefined_errors(self@.symbol_table.non_terminals),
            r.1 == undefined_count(self@.symbol_table.non_terminals),
    {
        proof {
            reveal_strlit("Symbol \"");
            reveal_strlit("\" is not defined");
            self.symbol_table.lemma_wf();
        }
        let ghost t = self@.symbol_table;
        let mut r: Vec<Diagnostic> = Vec::new();
        let mut count: usize = 0;
        let non_terminals = self.symbol_table.non_terminals();
        let mut i: usize = 0;
        proof {
            assert(t.non_terminals.take(0) =~= Seq::<(Seq<char>, NonTerminalView)>::empty());
            assert(diagnostics_view(r@) =~= Seq::<DiagnosticView>::empty());
        }
        while i < non_terminals.len()
            invariant
                t == self@.symbol_table,
                non_terminals@.len() == t.non_terminals.len(),
                forall|j: int| 0 <= j < non_terminals@.len() ==> (#[trigger] non_terminals@[j])@ == t.non_terminals[j].1,
                forall|j: int| 0 <= j < t.non_terminals.len() ==> (#[trigger] t.non_terminals[j]).1 is UserDefined,
                i <= non_terminals@.len(),
                count <= i,
                diagnostics_view(r@) == undefined_errors(t.non_terminals.take(i as int)),
                count == undefined_count(t.non_terminals.take(i as int)),
            decreases non_terminals@.len() - i,
        {
            proof {
                assert(t.non_terminals.take(i + 1).drop_last() =~= t.non_terminals.take(i as int));
                assert(t.non_terminals.take(i + 1).last() == t.non_terminals[i as int]);
                assert(t.non_terminals[i as int].1 is UserDefined);
            }
            let n = &non_terminals[i];
            if n.is_undefined() {
                let uses = n.used_at();
                let ghost d = non_terminal_data(n@);
                let ghost base = diagnostics_view(r@);
                let mut k: usize = 0;
                proof {
                    assert(d.used_at.take(0) =~= Seq::<LocationView>::empty());
                    assert(base + Seq::<DiagnosticView>::empty() =~= base);
                }
                while k < uses.len()
                    invariant
                        locations_view(uses@) == d.used_at,
                        k <= uses@.len(),
                        diagnostics_view(r@) == base + d.used_at.take(k as int).map_values(
                            |l: LocationView| DiagnosticView { location: l, is_error: true, message: undefined_text(d.name) },
                        ),
                        n@ is UserDefined,
                        d == non_terminal_data(n@),
                    decreases uses@.len() - k,
                {
                    proof {
                        assert(locations_view(uses@)[k as int] == uses@[k as int]@);
                        assert(d.used_at.take(k + 1) =~= d.used_at.take(k as int).push(d.used_at[k as int]));
                    }
                    let message = framed("Symbol \"", n.name(), "\" is not defined");
                    let ghost before = diagnostics_view(r@);
                    push_diagnostic(&mut r, Diagnostic { location: uses[k].snapshot(), is_error: true, message });
                    proof {
                        assert(d.used_at.take(k + 1).map_values(
                            |l: LocationView| DiagnosticView { location: l, is_error: true, message: undefined_text(d.name) },
                        ) =~= d.used_at.take(k as int).map_values(
                            |l: LocationView| DiagnosticView { location: l, is_error: true, message: undefined_text(d.name) },
                        ).push(DiagnosticView { location: d.used_at[k as int], is_error: true, message: undefined_text(d.name) }));
                    }
                    k = k + 1;
                }
                proof {
                    assert(d.used_at.take(k as int) =~= d.used_at);
                }
                count = count + 1;
            } else {
                proof {
                    assert(diagnostics_view(r@) + Seq::<DiagnosticView>::empty() =~= diagnostics_view(r@));
                }
            }
            i = i + 1;
        }
        proof {
            assert(t.non_terminals.take(i as int) =~= t.non_terminals);
        }
        (r, count)
    }
}


/// The actions of the productions read whose symbols `t` all knows, in the
/// order they were read.
pub open spec fn readable_actions(t: SymbolTableView, ps: Seq<(NonTerminalView, ProductionTailView)>) -> Seq<Option<Seq<char>>>
    decreases ps.len(),
{
    if ps.len() == 0 {
        Seq::empty()
    } else {
        let rest = readable_actions(t, ps.drop_last());
        match (nt_index(t, ps.last().0), converted(t, ps.last().1.right_hand_side)) {
            (Some(_), Some(_)) => rest.push(ps.last().1.action),
            _ => rest,
        }
    }
}

/// There is an action, or none, for each production read.
proof fn lemma_readable_actions_len(t: SymbolTableView, ps: Seq<(NonTerminalView, ProductionTailView)>)
    ensures
        readable_actions(t, ps).len() == readable(t, ps).len(),
    decreases ps.len(),
{
    if ps.len() > 0 {
        lemma_readable_actions_len(t, ps.drop_last());
    }
}

/// An arm of the generated `do_semantic_action` for each production that
/// has an action: the production numbered `k + 1` for the `k`th of `actions`.
pub open spec fn action_arms(names: Seq<Seq<char>>, prods: Seq<ProductionView>, actions: Seq<Option<Seq<char>>>) -> Seq<char>
    decreases actions.len(),
{
    if actions.len() == 0 {
        Seq::empty()
    } else {
        action_arms(names, prods, actions.drop_last()) + match actions.last() {
            Some(a) => "            "@ + decimal(actions.len()) + " => {\n                // "@ + production_text(names, prods[actions.len() as int])
                + "\n                "@ + expanded_action_text(a) + "\n            }\n"@,
            None => Seq::empty(),
        }
    }
}

/// The generated `do_semantic_action`, whose attributes are of type `attr`.
pub open spec fn semantic_action_text(attr: Seq<char>, names: Seq<Seq<char>>, prods: Seq<ProductionView>, actions: Seq<Option<Seq<char>>>) -> Seq<char> {
    "    fn do_semantic_action<F: FnMut(String, String)>(\n        &mut self,\n        aa_production_id: u32,\n        aa_rhs: Vec<"@ + attr
        + ">,\n        mut aa_inject: F,\n    ) -> "@ + attr
        + " {\n        let mut aa_lhs = if let Some(a) = aa_rhs.first() {\n            a.clone()\n        } else {\n           "@ + attr
        + "::default()\n        };\n        match aa_production_id {\n"@ + action_arms(names, prods, actions)
        + "            _ => aa_inject(String::new(), String::new()),\n        };\n        aa_lhs\n    }\n\n"@
}

impl SpecificationParser {
    /// The generated `do_semantic_action` of the specification read, which
    /// `specification` (as `SpecificationParser::specification` made it) holds.
    #[verifier::rlimit(30)]
    pub fn write_semantic_action_code(&self, specification: &Specification) -> (r: String)
        requires
            self.wf(),
            specification.prods_wf(),
            specification.names() == non_terminal_names(self@.symbol_table),
            specification.prods() == with_error_production(production_views(readable(self@.symbol_table, self@.productions))),
        ensures
            r@ == semantic_action_text(self@.attribute_type, specification.names(), specification.prods(),
                readable_actions(self@.symbol_table, self@.productions)),
    {
        proof {
            reveal_strlit("    fn do_semantic_action<F: FnMut(String, String)>(\n        &mut self,\n        aa_production_id: u32,\n        aa_rhs: Vec<");
            reveal_strlit(">,\n        mut aa_inject: F,\n    ) -> ");
            reveal_strlit(" {\n        let mut aa_lhs = if let Some(a) = aa_rhs.first() {\n            a.clone()\n        } else {\n           ");
            reveal_strlit("::default()\n        };\n        match aa_production_id {\n");
            reveal_strlit("            _ => aa_inject(String::new(), String::new()),\n        };\n        aa_lhs\n    }\n\n");
            reveal_strlit("            ");
            reveal_strlit(" => {\n                // ");
            reveal_strlit("\n                ");
            reveal_strlit("\n            }\n");
        }
        let ghost t = self@.symbol_table;
        let ghost ps = self@.productions;
        let ghost names = specification.names();
        let ghost prods = specification.prods();
        let mut arms = String::new();
        let mut j: usize = 0;
        let mut k: usize = 0;
        proof {
            assert(ps.take(0) =~= Seq::<(NonTerminalView, ProductionTailView)>::empty());
            lemma_readable_len(t, ps);
            lemma_production_views_len(readable(t, ps));
            specification.lemma_prods_wf();
        }
        while k < self.productions.len()
            invariant
                self.wf(),
                prods.len() < u32::MAX,
                t == self@.symbol_table,
                ps == self@.productions,
                names == specification.names(),
                prods == specification.prods(),
                specification.prods_wf(),
                prods == with_error_production(production_views(readable(t, ps))),
                production_views(readable(t, ps)).len() == if readable(t, ps).len() == 0 { 0 } else { readable(t, ps).len() + 1 },
                k <= ps.len(),
                j == readable(t, ps.take(k as int)).len(),
                readable(t, ps.take(k as int)).len() <= readable(t, ps).len(),
                readable_actions(t, ps.take(k as int)).len() == j,
                arms@ == action_arms(names, prods, readable_actions(t, ps.take(k as int))),
            decreases ps.len() - k,
        {
            proof {
                assert(ps.take(k + 1).drop_last() =~= ps.take(k as int));
                assert(ps.take(k + 1).last() == ps[k as int]);
                assert(ps[k as int] == (self.productions@[k as int].0@, self.productions@[k as int].1@));
                lemma_readable_prefix(t, ps, k as int + 1);
                lemma_readable_actions_len(t, ps.take(k + 1));
            }
            let lhs = &self.productions[k].0;
            let tail = &self.productions[k].1;
            match (non_terminal_index(&self.symbol_table, lhs), converted_rhs(&self.symbol_table, &tail.right_hand_side)) {
                (Some(_), Some(_)) => {
                    proof {
                        let acts = readable_actions(t, ps.take(k as int));
                        assert(readable_actions(t, ps.take(k + 1)) == acts.push(tail@.action));
                        assert(acts.push(tail@.action).drop_last() =~= acts);
                        assert(acts.push(tail@.action).last() == tail@.action);
                        assert(acts.push(tail@.action).len() == j + 1);
                        assert(j + 1 < prods.len());
                    }
                    match &tail.action {
                        Some(action) => {
                            arms.append("            ");
                            arms.append(decimal_string(j + 1).as_str());
                            arms.append(" => {\n                // ");
                            arms.append(specification.production_text(j + 1).as_str());
                            arms.append("\n                ");
                            arms.append(expanded_action(action.as_str()).as_str());
                            arms.append("\n            }\n");
                        },
                        None => {
                            proof {
                                assert(arms@ + Seq::<char>::empty() =~= arms@);
                            }
                        },
                    }
                    j = j + 1;
                },
                _ => {
                    proof {
                        assert(readable_actions(t, ps.take(k + 1)) == readable_actions(t, ps.take(k as int)));
                    }
                },
            }
            k = k + 1;
        }
        proof {
            assert(ps.take(ps.len() as int) =~= ps);
        }
        let mut r = String::from_str("    fn do_semantic_action<F: FnMut(String, String)>(\n        &mut self,\n        aa_production_id: u32,\n        aa_rhs: Vec<");
        r.append(self.attribute_type.as_str());
        r.append(">,\n        mut aa_inject: F,\n    ) -> ");
        r.append(self.attribute_type.as_str());
        r.append(" {\n        let mut aa_lhs = if let Some(a) = aa_rhs.first() {\n            a.clone()\n        } else {\n           ");
        r.append(self.attribute_type.as_str());
        r.append("::default()\n        };\n        match aa_production_id {\n");
        r.append(arms.as_str());
        r.append("            _ => aa_inject(String::new(), String::new()),\n        };\n        aa_lhs\n    }\n\n");
        r
    }
}

/// The productions read from a prefix of `ps` are no more than those read from all of it.
proof fn lemma_readable_prefix(t: SymbolTableView, ps: Seq<(NonTerminalView, ProductionTailView)>, k: int)
    requires
        0 <= k <= ps.len(),
    ensures
        readable(t, ps.take(k)).len() <= readable(t, ps).len(),
    decreases ps.len() - k,
{
    if k < ps.len() {
        lemma_readable_prefix(t, ps, k + 1);
        assert(ps.take(k + 1).drop_last() =~= ps.take(k));
    } else {
        assert(ps.take(k) =~= ps);
    }
}

} // verus!
