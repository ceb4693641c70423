//! Tokens, lexical errors and the streams of tokens that a lexicon cuts from texts.

use std::sync::Arc;

use vstd::prelude::*;
use vstd::string::StringSliceAdditionalSpecFns;
use vstd::utf8::{decode_utf8, encode_utf8, is_char_boundary};

use crate::lexicon::{next_valid, Lexicon, LexiconView};
use crate::literal_matcher::longest_prefix_match;
use crate::location::{line_breaks, offset_after, Location, LocationView};
use crate::regex_matcher::{max_match_end, skip_from, tags_ending_at};

verus! {

/// Abstract value of a [`Token`].
pub struct TokenView {
    pub tag: u32,
    pub lexeme: Seq<char>,
    pub location: LocationView,
}

/// A lexeme cut from a text, with its tag and where it starts.
#[derive(Debug, Clone, PartialEq, Eq)]
pub struct Token {
    tag: u32,
    lexeme: String,
    location: Location,
}

impl View for Token {
    type V = TokenView;

    closed spec fn view(&self) -> TokenView {
        TokenView { tag: self.tag, lexeme: self.lexeme@, location: self.location@ }
    }
}

impl Token {
    /// The token with `tag` whose lexeme `lexeme` starts at `location`.
    pub fn new(tag: u32, lexeme: String, location: Location) -> (r: Token)
        ensures
            r@ == (TokenView { tag, lexeme: lexeme@, location: location@ }),
    {
        Token { tag, lexeme, location }
    }

    pub fn tag(&self) -> (r: &u32)
        ensures
            *r == self@.tag,
    {
        &self.tag
    }

    pub fn lexeme(&self) -> (r: &String)
        ensures
            r@ == self@.lexeme,
    {
        &self.lexeme
    }

    pub fn location(&self) -> (r: &Location)
        ensures
            r@ == self@.location,
    {
        &self.location
    }

    /// A copy of this token.
    pub fn snapshot(&self) -> (r: Token)
        ensures
            r@ == self@,
    {
        Token { tag: self.tag, lexeme: self.lexeme.clone(), location: self.location.snapshot() }
    }
}

/// Abstract value of an [`LexError`].
pub enum ErrorView {
    UnexpectedText(Seq<char>, LocationView),
    AmbiguousMatches(Seq<u32>, Seq<char>, LocationView),
    AdvancedWhenEmpty(LocationView),
}

/// A lexical error met in a text.
#[derive(Debug, Clone, PartialEq, Eq)]
pub enum LexError {
    /// Text that no lexeme matches, and where it starts.
    UnexpectedText(String, Location),
    /// Text that several regex lexemes match equally far, their tags, and where it starts.
    AmbiguousMatches(Vec<u32>, String, Location),
    /// The stream was advanced past its end.
    AdvancedWhenEmpty(Location),
}

impl View for LexError {
    type V = ErrorView;

    closed spec fn view(&self) -> ErrorView {
        match self {
            LexError::UnexpectedText(s, l) => ErrorView::UnexpectedText(s@, l@),
            LexError::AmbiguousMatches(ts, s, l) => ErrorView::AmbiguousMatches(ts@, s@, l@),
            LexError::AdvancedWhenEmpty(l) => ErrorView::AdvancedWhenEmpty(l@),
        }
    }
}

/// The location at which an error was met.
pub open spec fn error_location(e: ErrorView) -> LocationView {
    match e {
        ErrorView::UnexpectedText(_, l) => l,
        ErrorView::AmbiguousMatches(_, _, l) => l,
        ErrorView::AdvancedWhenEmpty(l) => l,
    }
}

impl LexError {
    pub fn is_unexpected_text(&self) -> (r: bool)
        ensures
            r == (self@ is UnexpectedText),
    {
        match self {
            LexError::UnexpectedText(_, _) => true,
            _ => false,
        }
    }

    pub fn is_ambiguous_match(&self) -> (r: bool)
        ensures
            r == (self@ is AmbiguousMatches),
    {
        match self {
            LexError::AmbiguousMatches(_, _, _) => true,
            _ => false,
        }
    }

    pub fn is_advance_when_empty(&self) -> (r: bool)
        ensures
            r == (self@ is AdvancedWhenEmpty),
    {
        match self {
            LexError::AdvancedWhenEmpty(_) => true,
            _ => false,
        }
    }

    /// Where this error was met.
    pub fn location(&self) -> (r: &Location)
        ensures
            r@ == error_location(self@),
    {
        match self {
            LexError::UnexpectedText(_, l) => l,
            LexError::AmbiguousMatches(_, _, l) => l,
            LexError::AdvancedWhenEmpty(l) => l,
        }
    }

    /// A copy of this error.
    pub fn snapshot(&self) -> (r: LexError)
        ensures
            r@ == self@,
    {
        match self {
            LexError::UnexpectedText(s, l) => LexError::UnexpectedText(s.clone(), l.snapshot()),
            LexError::AmbiguousMatches(ts, s, l) => {
                let mut tags: Vec<u32> = Vec::new();
                let mut i: usize = 0;
                while i < ts.len()
                    invariant
                        i <= ts@.len(),
                        tags@ == ts@.take(i as int),
                    decreases ts@.len() - i,
                {
                    tags.push(ts[i]);
                    i = i + 1;
                    assert(tags@ =~= ts@.take(i as int));
                }
                assert(ts@.take(ts@.len() as int) =~= ts@);
                LexError::AmbiguousMatches(tags, s.clone(), l.snapshot())
            },
            LexError::AdvancedWhenEmpty(l) => LexError::AdvancedWhenEmpty(l.snapshot()),
        }
    }
}

/// A copy of a token or an error.
fn snapshot_front(f: &Result<Token, LexError>) -> (r: Result<Token, LexError>)
    ensures
        front_view(r) == front_view(*f),
{
    match f {
        Ok(t) => Ok(t.snapshot()),
        Err(e) => Err(e.snapshot()),
    }
}

/// The view of a token or an error.
pub open spec fn front_view(f: Result<Token, LexError>) -> Result<TokenView, ErrorView> {
    match f {
        Ok(t) => Ok(t@),
        Err(e) => Err(e@),
    }
}

/// The location after stepping past the bytes `s` from `l`.
pub open spec fn step_loc(l: LocationView, s: Seq<u8>) -> LocationView {
    LocationView {
        label: l.label,
        index: l.index + s.len(),
        line_number: l.line_number + line_breaks(s),
        offset: offset_after(s, l.offset as int) as nat,
    }
}

/// What the lexicon finds at the start of `rest`, the text after any skippable bytes.
pub enum Scan {
    /// A lexeme with its tag and length.
    Lexeme(u32, nat),
    /// Several regex lexemes (their tags) that match equally far, and that length.
    Ambiguous(Seq<u32>, nat),
    /// No lexeme, and the number of bytes up to the next valid content.
    Unexpected(nat),
}

/// The number of bytes of `rest` before its next valid content.
pub open spec fn distance_to_valid(v: LexiconView, rest: Seq<u8>) -> nat {
    choose|n: nat| next_valid(v, rest, n)
}

/// What the lexicon finds at the start of `rest`: the longest literal lexeme,
/// unless regex lexemes match further (one: that lexeme; several: an
/// ambiguity); with no literal lexeme, a single longest regex lexeme, or an
/// ambiguity among several; with none at all, unexpected text.
pub open spec fn scan(v: LexiconView, rest: Seq<u8>) -> Scan {
    let re_len = max_match_end(v.regexes, decode_utf8(rest));
    let re_tags = tags_ending_at(v.regexes, decode_utf8(rest), re_len);
    match longest_prefix_match(v.literals, rest) {
        Some((t, l)) => if re_tags.len() > 1 && re_len > l {
            Scan::Ambiguous(re_tags, re_len)
        } else if re_tags.len() == 1 && re_len > l {
            Scan::Lexeme(re_tags[0], re_len)
        } else {
            Scan::Lexeme(t, l)
        },
        None => if re_tags.len() == 1 {
            Scan::Lexeme(re_tags[0], re_len)
        } else if re_tags.len() > 1 {
            Scan::Ambiguous(re_tags, re_len)
        } else {
            Scan::Unexpected(distance_to_valid(v, rest))
        },
    }
}

/// A match that ends before `e`, or none.
pub open spec fn ends_before(o: Option<nat>, e: nat) -> bool {
    match o {
        Some(x) => x < e,
        None => true,
    }
}

/// Where every pattern's match ends before `e`, the longest match ends
/// before it and no pattern ends at it.
proof fn lemma_all_end_before(ps: Seq<(u32, Seq<char>)>, h: Seq<char>, e: nat)
    requires
        e > 0,
        forall|j: int| 0 <= j < ps.len() ==> ends_before(#[trigger] crate::regex_matcher::match_end(ps[j].1, h), e),
    ensures
        max_match_end(ps, h) < e,
        tags_ending_at(ps, h, e) == Seq::<u32>::empty(),
    decreases ps.len(),
{
    if ps.len() > 0 {
        assert forall|j: int| 0 <= j < ps.drop_last().len() implies ends_before(
            #[trigger] crate::regex_matcher::match_end(ps.drop_last()[j].1, h), e) by {
            assert(ps.drop_last()[j] == ps[j]);
        }
        lemma_all_end_before(ps.drop_last(), h, e);
        assert(ends_before(crate::regex_matcher::match_end(ps[ps.len() - 1].1, h), e));
    }
}

/// Where the `i`th pattern's match ends at `e` and every other pattern's
/// match ends before it, the longest match ends at `e` and only the `i`th
/// pattern's tag ends there.
proof fn lemma_single_longest(ps: Seq<(u32, Seq<char>)>, h: Seq<char>, i: int, e: nat)
    requires
        0 <= i < ps.len(),
        e > 0,
        crate::regex_matcher::match_end(ps[i].1, h) == Some(e),
        forall|j: int| 0 <= j < ps.len() && j != i ==> ends_before(#[trigger] crate::regex_matcher::match_end(ps[j].1, h), e),
    ensures
        max_match_end(ps, h) == e,
        tags_ending_at(ps, h, e) == seq![ps[i].0],
    decreases ps.len(),
{
    let rest = ps.drop_last();
    if i == ps.len() - 1 {
        assert forall|j: int| 0 <= j < rest.len() implies ends_before(#[trigger] crate::regex_matcher::match_end(rest[j].1, h), e) by {
            assert(rest[j] == ps[j]);
        }
        lemma_all_end_before(rest, h, e);
        assert(ps.last() == ps[i]);
        assert(tags_ending_at(rest, h, e).push(ps.last().0) =~= seq![ps[i].0]);
    } else {
        assert(rest[i] == ps[i]);
        assert forall|j: int| 0 <= j < rest.len() && j != i implies ends_before(#[trigger] crate::regex_matcher::match_end(rest[j].1, h), e) by {
            assert(rest[j] == ps[j]);
        }
        lemma_single_longest(rest, h, i, e);
        assert(ends_before(crate::regex_matcher::match_end(ps[ps.len() - 1].1, h), e));
    }
}

/// What the lexicon finds at the front of a text where a literal lexeme
/// matches: where exactly one regex lexeme matches further than the longest
/// literal lexeme and further than every other regex lexeme, the token is
/// that regex lexeme, as long as its match; where no regex lexeme matches
/// further than the longest literal lexeme, the token is that literal
/// lexeme.
pub proof fn law_scan_prefers_longer_match(v: LexiconView, rest: Seq<u8>, i: int, e: nat)
    requires
        longest_prefix_match(v.literals, rest) is Some,
        0 <= i < v.regexes.len(),
        crate::regex_matcher::match_end(v.regexes[i].1, decode_utf8(rest)) == Some(e),
        e > longest_prefix_match(v.literals, rest).unwrap().1,
        forall|j: int| 0 <= j < v.regexes.len() && j != i
            ==> ends_before(#[trigger] crate::regex_matcher::match_end(v.regexes[j].1, decode_utf8(rest)), e),
    ensures
        scan(v, rest) == Scan::Lexeme(v.regexes[i].0, e),
{
    lemma_single_longest(v.regexes, decode_utf8(rest), i, e);
}

/// Where no literal lexeme matches at the front of a text and exactly one
/// regex lexeme matches further than every other, the token is that regex
/// lexeme, as long as its match.
pub proof fn law_scan_single_regex(v: LexiconView, rest: Seq<u8>, i: int, e: nat)
    requires
        longest_prefix_match(v.literals, rest) is None,
        0 <= i < v.regexes.len(),
        e > 0,
        crate::regex_matcher::match_end(v.regexes[i].1, decode_utf8(rest)) == Some(e),
        forall|j: int| 0 <= j < v.regexes.len() && j != i
            ==> ends_before(#[trigger] crate::regex_matcher::match_end(v.regexes[j].1, decode_utf8(rest)), e),
    ensures
        scan(v, rest) == Scan::Lexeme(v.regexes[i].0, e),
{
    lemma_single_longest(v.regexes, decode_utf8(rest), i, e);
}

/// Where a literal lexeme matches at the front of a text and no regex
/// lexeme matches further, the token is the longest literal lexeme.
pub proof fn law_scan_literal_when_not_outmatched(v: LexiconView, rest: Seq<u8>)
    requires
        longest_prefix_match(v.literals, rest) is Some,
        forall|j: int| 0 <= j < v.regexes.len() ==> ends_before(
            #[trigger] crate::regex_matcher::match_end(v.regexes[j].1, decode_utf8(rest)),
            longest_prefix_match(v.literals, rest).unwrap().1 + 1,
        ),
    ensures
        scan(v, rest) == Scan::Lexeme(longest_prefix_match(v.literals, rest).unwrap().0, longest_prefix_match(v.literals, rest).unwrap().1),
{
    let l = longest_prefix_match(v.literals, rest).unwrap().1;
    lemma_all_end_before(v.regexes, decode_utf8(rest), l + 1);
}

/// The number of bytes that a scan consumes.
pub open spec fn scan_len(s: Scan) -> nat {
    match s {
        Scan::Lexeme(_, n) => n,
        Scan::Ambiguous(_, n) => n,
        Scan::Unexpected(n) => n,
    }
}

/// What the scan yields, given the consumed text and where it starts.
pub open spec fn scan_result(s: Scan, text: Seq<char>, at: LocationView) -> Result<TokenView, ErrorView> {
    match s {
        Scan::Lexeme(t, _) => Ok(TokenView { tag: t, lexeme: text, location: at }),
        Scan::Ambiguous(ts, _) => Err(ErrorView::AmbiguousMatches(ts, text, at)),
        Scan::Unexpected(_) => Err(ErrorView::UnexpectedText(text, at)),
    }
}

/// Abstract value of a stream that cuts tokens from one text.
pub struct BasicView {
    /// The text, as UTF-8 bytes.
    pub bytes: Seq<u8>,
    /// Where the stream stands in the text.
    pub location: LocationView,
    /// The token (or error) at the front, if the text is not exhausted.
    pub front: Option<Result<TokenView, ErrorView>>,
}

/// The stream after cutting its next token: any skippable bytes are passed,
/// and then, unless the text is exhausted, what the lexicon finds there.
pub open spec fn basic_next(v: LexiconView, b: BasicView) -> BasicView {
    let index = b.location.index;
    let skip = skip_from(v.skips, b.bytes.skip(index as int), 0);
    let start = index + skip;
    let at = step_loc(b.location, b.bytes.subrange(index as int, start as int));
    if start >= b.bytes.len() {
        BasicView { bytes: b.bytes, location: at, front: None }
    } else {
        let s = scan(v, b.bytes.skip(start as int));
        let end = start + scan_len(s);
        let cut = b.bytes.subrange(start as int, end as int);
        BasicView {
            bytes: b.bytes,
            location: step_loc(at, cut),
            front: Some(scan_result(s, decode_utf8(cut), at)),
        }
    }
}

/// The decision made by a scan, in executable form.
enum Choice {
    Lexeme(u32, usize),
    Ambiguous(Vec<u32>, usize),
    Unexpected(usize),
}

impl Choice {
    spec fn to_scan(&self) -> Scan {
        match self {
            Choice::Lexeme(t, n) => Scan::Lexeme(*t, *n as nat),
            Choice::Ambiguous(ts, n) => Scan::Ambiguous(ts@, *n as nat),
            Choice::Unexpected(n) => Scan::Unexpected(*n as nat),
        }
    }
}

proof fn lemma_next_valid_unique(v: LexiconView, rest: Seq<u8>, n: nat)
    requires
        next_valid(v, rest, n),
    ensures
        distance_to_valid(v, rest) == n,
{
    let m = distance_to_valid(v, rest);
    assert(next_valid(v, rest, m));
    if m < n {
        assert(crate::lexicon::valid_at(v, rest, m as int));
    }
    if n < m {
        assert(crate::lexicon::valid_at(v, rest, n as int));
    }
}

/// Decides what the lexicon finds at the start of `rest`.
fn scan_text(lexicon: &Lexicon, rest: &str) -> (r: Choice)
    requires
        lexicon.wf(),
    ensures
        r.to_scan() == scan(lexicon@, rest.spec_bytes()),
        scan_len(r.to_scan()) <= rest.spec_bytes().len(),
        is_char_boundary(rest.spec_bytes(), scan_len(r.to_scan()) as int),
{
    proof {
        vstd::utf8::encode_utf8_decode_utf8(rest@);
    }
    let _len = crate::text::byte_len(rest);
    let o_llm = lexicon.longest_literal_match(rest);
    let lrems = lexicon.longest_regex_matches(rest);
    let (tags, re_len) = lrems;
    match o_llm {
        Some((tag, l)) => {
            if tags.len() > 1 && re_len > l {
                Choice::Ambiguous(tags, re_len)
            } else if tags.len() == 1 && re_len > l {
                Choice::Lexeme(tags[0], re_len)
            } else {
                Choice::Lexeme(tag, l)
            }
        },
        None => {
            if tags.len() == 1 {
                Choice::Lexeme(tags[0], re_len)
            } else if tags.len() > 1 {
                Choice::Ambiguous(tags, re_len)
            } else {
                let d = lexicon.distance_to_next_valid_byte(rest);
                proof {
                    lemma_next_valid_unique(lexicon@, rest.spec_bytes(), d as nat);
                }
                Choice::Unexpected(d)
            }
        },
    }
}

/// Cuts tokens from one text.
struct BasicTokenStream {
    lexicon: Arc<Lexicon>,
    text: String,
    location: Location,
    front: Option<Result<Token, LexError>>,
}

impl View for BasicTokenStream {
    type V = BasicView;

    closed spec fn view(&self) -> BasicView {
        BasicView {
            bytes: encode_utf8(self.text@),
            location: self.location@,
            front: match self.front {
                Some(f) => Some(front_view(f)),
                None => None,
            },
        }
    }
}

impl BasicTokenStream {
    spec fn wf(&self) -> bool {
        let bytes = encode_utf8(self.text@);
        &&& self.lexicon.wf()
        &&& bytes.len() < usize::MAX
        &&& self.location@.index <= bytes.len()
        &&& is_char_boundary(bytes, self.location@.index as int)
        &&& self.location@.line_number <= 1 + self.location@.index
        &&& 1 <= self.location@.offset <= 1 + self.location@.index
    }

    fn new(lexicon: &Arc<Lexicon>, text: &str, label: &str) -> (r: Self)
        requires
            lexicon.wf(),
            text.spec_bytes().len() < usize::MAX,
        ensures
            r.wf(),
            r.lexicon@ == lexicon@,
            r@ == basic_next(lexicon@, BasicView {
                bytes: text.spec_bytes(),
                location: LocationView { label: label@, index: 0, line_number: 1, offset: 1 },
                front: None,
            }),
    {
        proof {
            vstd::utf8::encode_utf8_valid_utf8(text@);
            vstd::utf8::is_char_boundary_start_end_of_seq(text.spec_bytes());
        }
        let mut bts = BasicTokenStream {
            lexicon: Arc::clone(lexicon),
            text: text.to_string(),
            location: Location::new(label),
            front: None,
        };
        bts.advance();
        bts
    }

    fn front(&self) -> (r: Option<Result<Token, LexError>>)
        ensures
            r == None::<Result<Token, LexError>> <==> self@.front is None,
            r matches Some(f) ==> self@.front == Some(front_view(f)),
    {
        match &self.front {
            Some(f) => Some(snapshot_front(f)),
            None => None,
        }
    }

    fn is_empty(&self) -> (r: bool)
        ensures
            r == (self@.front is None),
    {
        self.front.is_none()
    }

    fn location(&self) -> (r: Location)
        ensures
            r@ == self@.location,
    {
        self.location.snapshot()
    }

    fn advance(&mut self)
        requires
            old(self).wf(),
        ensures
            final(self).wf(),
            final(self).lexicon == old(self).lexicon,
            final(self)@ == basic_next(old(self).lexicon@, old(self)@),
    {
        self.front = self.next();
    }

    /// Cuts the next token, moving the stream past it.
    fn next(&mut self) -> (r: Option<Result<Token, LexError>>)
        requires
            old(self).wf(),
        ensures
            final(self).wf(),
            final(self).lexicon == old(self).lexicon,
            final(self).text@ == old(self).text@,
            final(self).location@ == basic_next(old(self).lexicon@, old(self)@).location,
            match r {
                Some(f) => basic_next(old(self).lexicon@, old(self)@).front == Some(front_view(f)),
                None => basic_next(old(self).lexicon@, old(self)@).front is None,
            },
    {
        let ghost bytes = encode_utf8(self.text@);
        let ghost v = self.lexicon@;
        let ghost old_loc = self.location@;
        let text: &str = self.text.as_str();
        assert(text.spec_bytes() == bytes);
        proof {
            vstd::utf8::encode_utf8_valid_utf8(text@);
            vstd::utf8::is_char_boundary_start_end_of_seq(bytes);
        }
        let len = crate::text::byte_len(text);
        let index = self.location.index();
        let (_, r0) = text.split_at(index);
        proof {
            crate::text::lemma_split_view(text, index as int, r0);
        }
        let skip = self.lexicon.skippable_count(r0);
        let (skipped, _) = r0.split_at(skip);
        assert(skipped.spec_bytes() =~= bytes.subrange(index as int, index + skip));
        proof {
            crate::location::lemma_line_breaks_le_len(skipped.spec_bytes());
            crate::location::lemma_offset_after_bound(skipped.spec_bytes(), old_loc.offset as int);
            crate::text::lemma_boundary_shift(bytes, index as int, skip as int);
        }
        self.location.step_past(skipped);
        let start = index + skip;
        if start >= len {
            return None;
        }
        let ghost at = self.location@;
        let current_location = self.location.snapshot();
        let (_, rest) = text.split_at(start);
        proof {
            crate::text::lemma_split_view(text, start as int, rest);
        }
        let choice = scan_text(&self.lexicon, rest);
        let n = match &choice {
            Choice::Lexeme(_, n) => *n,
            Choice::Ambiguous(_, n) => *n,
            Choice::Unexpected(n) => *n,
        };
        assert(n as nat == scan_len(choice.to_scan()));
        let (cut, _) = rest.split_at(n);
        assert(cut.spec_bytes() =~= bytes.subrange(start as int, start + n));
        proof {
            crate::location::lemma_line_breaks_le_len(cut.spec_bytes());
            crate::location::lemma_offset_after_bound(cut.spec_bytes(), at.offset as int);
            crate::text::lemma_boundary_shift(bytes, start as int, n as int);
            vstd::utf8::encode_utf8_decode_utf8(cut@);
        }
        self.location.step_past(cut);
        let lexeme = cut.to_string();
        let result = match choice {
            Choice::Lexeme(tag, _) => Ok(Token { tag, lexeme, location: current_location }),
            Choice::Ambiguous(tags, _) => Err(LexError::AmbiguousMatches(tags, lexeme, current_location)),
            Choice::Unexpected(_) => Err(LexError::UnexpectedText(lexeme, current_location)),
        };
        Some(result)
    }
}

/// The location of the front of a stream.
pub open spec fn front_location(f: Result<TokenView, ErrorView>) -> LocationView {
    match f {
        Ok(t) => t.location,
        Err(e) => error_location(e),
    }
}

/// The stream of one text as it stands once it has been started.
pub open spec fn basic_start(v: LexiconView, bytes: Seq<u8>, label: Seq<char>) -> BasicView {
    basic_next(v, BasicView {
        bytes,
        location: LocationView { label, index: 0, line_number: 1, offset: 1 },
        front: None,
    })
}

/// Abstract value of a [`TokenStream`].
pub struct StreamView {
    /// The streams of the texts being read, the most recently injected last.
    pub stack: Seq<BasicView>,
    /// The token (or error) at the front of the stream.
    pub front: Result<TokenView, ErrorView>,
}

/// The stream after injecting the text with `bytes` and `label`: reading
/// continues in that text, unless it holds nothing but skippable bytes.
pub open spec fn stream_inject(v: LexiconView, t: StreamView, bytes: Seq<u8>, label: Seq<char>) -> StreamView {
    let b = basic_start(v, bytes, label);
    match b.front {
        Some(f) => StreamView { stack: t.stack.push(b), front: f },
        None => t,
    }
}

/// The stream after advancing: the innermost text moves on to its next token;
/// an exhausted text is dropped and reading resumes in the text it was
/// injected into; once all are exhausted the front is the end marker, at the
/// end of the first text. Advancing past that end gives an error at the
/// location of the previous front.
pub open spec fn stream_advance(v: LexiconView, t: StreamView) -> StreamView {
    if t.stack.len() > 0 {
        let top = basic_next(v, t.stack.last());
        match top.front {
            Some(f) => StreamView { stack: t.stack.update(t.stack.len() - 1, top), front: f },
            None => {
                let rest = t.stack.drop_last();
                StreamView {
                    stack: rest,
                    front: if rest.len() > 0 {
                        rest.last().front->0
                    } else {
                        Ok(TokenView { tag: v.end_marker, lexeme: Seq::empty(), location: top.location })
                    },
                }
            },
        }
    } else {
        StreamView { stack: t.stack, front: Err(ErrorView::AdvancedWhenEmpty(front_location(t.front))) }
    }
}

/// A stream of tokens cut from a text, into which further texts may be
/// injected: tokens are then taken from the injected text until it is exhausted.
pub struct TokenStream {
    lexicon: Arc<Lexicon>,
    token_stream_stack: Vec<BasicTokenStream>,
    front: Result<Token, LexError>,
}

impl View for TokenStream {
    type V = StreamView;

    closed spec fn view(&self) -> StreamView {
        StreamView {
            stack: self.token_stream_stack@.map_values(|b: BasicTokenStream| b@),
            front: front_view(self.front),
        }
    }
}

impl TokenStream {
    /// The lexicon that cuts the tokens.
    pub closed spec fn lexicon_view(&self) -> LexiconView {
        self.lexicon@
    }

    pub closed spec fn wf(&self) -> bool {
        &&& self.lexicon.wf()
        &&& forall|i: int| 0 <= i < self.token_stream_stack@.len() ==> {
            let b = #[trigger] self.token_stream_stack@[i];
            &&& b.wf()
            &&& b.lexicon@ == self.lexicon@
            &&& b@.front is Some
        }
    }

    /// A stream of the tokens of `text`, labelled `label`, cut by `lexicon`.
    pub fn new(lexicon: &Arc<Lexicon>, text: &str, label: &str) -> (r: Self)
        requires
            lexicon.wf(),
            text.spec_bytes().len() < usize::MAX,
        ensures
            r.wf(),
            r.lexicon_view() == lexicon@,
            r@ == stream_inject(lexicon@, StreamView {
                stack: Seq::empty(),
                front: Err(ErrorView::AdvancedWhenEmpty(LocationView { label: Seq::empty(), index: 0, line_number: 0, offset: 0 })),
            }, text.spec_bytes(), label@),
    {
        let mut stream = TokenStream {
            lexicon: Arc::clone(lexicon),
            token_stream_stack: Vec::new(),
            front: Err(LexError::AdvancedWhenEmpty(Location::default())),
        };
        assert(stream@.stack =~= Seq::<BasicView>::empty());
        stream.inject(text, label);
        stream
    }

    /// Whether every text of the stream is exhausted.
    pub fn is_empty(&self) -> (r: bool)
        ensures
            r == (self@.stack.len() == 0),
    {
        self.token_stream_stack.len() == 0
    }

    /// The token (or error) at the front of the stream.
    pub fn front(&self) -> (r: Result<Token, LexError>)
        ensures
            front_view(r) == self@.front,
    {
        snapshot_front(&self.front)
    }

    /// Continues reading in `text`, labelled `label`, until it is exhausted.
    pub fn inject(&mut self, text: &str, label: &str)
        requires
            old(self).wf(),
            text.spec_bytes().len() < usize::MAX,
        ensures
            final(self).wf(),
            final(self).lexicon_view() == old(self).lexicon_view(),
            final(self)@ == stream_inject(old(self).lexicon_view(), old(self)@, text.spec_bytes(), label@),
    {
        let token_stream = BasicTokenStream::new(&self.lexicon, text, label);
        if !token_stream.is_empty() {
            match token_stream.front() {
                Some(f) => {
                    self.front = f;
                },
                None => {},
            }
            self.token_stream_stack.push(token_stream);
            assert(self@.stack =~= old(self)@.stack.push(token_stream@));
        }
    }

    /// Moves the stream on to its next token.
    pub fn advance(&mut self)
        requires
            old(self).wf(),
        ensures
            final(self).wf(),
            final(self).lexicon_view() == old(self).lexicon_view(),
            final(self)@ == stream_advance(old(self).lexicon_view(), old(self)@),
    {
        let i = self.token_stream_stack.len();
        if i > 0 {
            let ghost old_stack = self.token_stream_stack@;
            let mut top = self.token_stream_stack.pop().unwrap();
            assert(old_stack[i - 1] == top);
            top.advance();
            if top.is_empty() {
                assert(self@.stack =~= old(self)@.stack.drop_last());
                let j = self.token_stream_stack.len();
                if j > 0 {
                    assert(self.token_stream_stack@[j - 1].wf());
                    match self.token_stream_stack[j - 1].front() {
                        Some(f) => {
                            self.front = f;
                        },
                        None => {},
                    }
                } else {
                    let end_location = top.location();
                    self.front = Ok(Token {
                        tag: self.lexicon.end_marker(),
                        lexeme: String::new(),
                        location: end_location,
                    });
                    assert(self@.front == front_view(self.front));
                }
            } else {
                match top.front() {
                    Some(f) => {
                        self.front = f;
                    },
                    None => {},
                }
                self.token_stream_stack.push(top);
                assert(self@.stack =~= old(self)@.stack.update(i - 1, top@));
            }
        } else {
            let location = match &self.front {
                Ok(token) => token.location(),
                Err(err) => err.location(),
            };
            self.front = Err(LexError::AdvancedWhenEmpty(location.snapshot()));
        }
    }

    /// The front of the stream, which then moves on.
    pub fn front_advance(&mut self) -> (r: Result<Token, LexError>)
        requires
            old(self).wf(),
        ensures
            final(self).wf(),
            final(self).lexicon_view() == old(self).lexicon_view(),
            front_view(r) == old(self)@.front,
            final(self)@ == stream_advance(old(self).lexicon_view(), old(self)@),
    {
        let front = snapshot_front(&self.front);
        self.advance();
        front
    }

    /// Moves the stream on and returns its new front.
    pub fn advance_front(&mut self) -> (r: Result<Token, LexError>)
        requires
            old(self).wf(),
        ensures
            final(self).wf(),
            final(self).lexicon_view() == old(self).lexicon_view(),
            final(self)@ == stream_advance(old(self).lexicon_view(), old(self)@),
            front_view(r) == final(self)@.front,
    {
        self.advance();
        snapshot_front(&self.front)
    }
}

} // verus!
