//! Matching of regular expression lexemes and skip rules at the start of a text.

use vstd::prelude::*;
use vstd::string::StringExecFns;
use vstd::string::StringSliceAdditionalSpecFns;
use vstd::utf8::is_char_boundary;

use crate::error::LexanError;

verus! {

/// A compiled regular expression of the `regex` crate.
#[verifier::external_type_specification]
#[verifier::external_body]
pub struct ExRegex(regex::Regex);

/// Whether `regex::Regex::new` compiles `pattern` (with the crate's default
/// options and size limit).
pub uninterp spec fn regex_compiles(pattern: Seq<char>) -> bool;

/// The end (a byte offset) of the first match that `regex::Regex::find` finds
/// for the regex compiled from `pattern` in `haystack`, if there is one.
pub uninterp spec fn regex_find_end(pattern: Seq<char>, haystack: Seq<char>) -> Option<nat>;

/// The two characters that anchor a pattern at the start of the haystack.
pub open spec fn anchor() -> Seq<char> {
    seq!['\\', 'A']
}

/// A pattern anchored at the start of the haystack.
pub open spec fn anchored(pattern: Seq<char>) -> Seq<char> {
    anchor() + pattern
}

/// A compiled regular expression together with the pattern it was compiled from.
pub struct AnchoredRegex {
    pattern: String,
    regex: regex::Regex,
}

impl View for AnchoredRegex {
    type V = Seq<char>;

    closed spec fn view(&self) -> Seq<char> {
        self.pattern@
    }
}

/// The texts between the successive matches that `regex::Regex::split`
/// gives for the regex compiled from `pattern` on `text`: the text before
/// the first match, the texts between matches, and the text after the last.
pub uninterp spec fn regex_split_pieces(pattern: Seq<char>, text: Seq<char>) -> Seq<Seq<char>>;

/// The texts of the first groups of the successive matches that
/// `regex::Regex::captures_iter` gives for the regex compiled from `pattern`
/// on `text`.
pub uninterp spec fn regex_first_groups(pattern: Seq<char>, text: Seq<char>) -> Seq<Seq<char>>;

/// The pattern of a numbered attribute reference: `$` and decimal digits,
/// the digits as the first group.
pub open spec fn numbered_reference_pattern() -> Seq<char> {
    seq!['\\', '$', '(', '\\', 'd', '+', ')']
}

/// Splits `text` at the matches of `re` with `regex::Regex::split`. The
/// contract claims that the pieces are `regex_split_pieces` of the pattern
/// and the text and, as the crate documents (each match delimits two
/// pieces), that there is one more piece than `captures_iter` finds
/// matches; the pattern never matches the empty text.
#[verifier::external_body]
pub(crate) fn split_pieces(re: &AnchoredRegex, text: &str) -> (r: Vec<String>)
    requires
        re@ == numbered_reference_pattern(),
    ensures
        r@.len() == regex_split_pieces(re@, text@).len(),
        forall|i: int| 0 <= i < r@.len() ==> (#[trigger] r@[i])@ == regex_split_pieces(re@, text@)[i],
        r@.len() == regex_first_groups(re@, text@).len() + 1,
{
    re.regex.split(text).map(|piece| piece.to_string()).collect()
}

/// The first groups of the matches of `re` in `text`, with
/// `regex::Regex::captures_iter`. The contract claims that they are
/// `regex_first_groups` of the pattern and the text; the pattern has a first
/// group that takes part in every match, so indexing it does not panic.
#[verifier::external_body]
pub(crate) fn first_groups(re: &AnchoredRegex, text: &str) -> (r: Vec<String>)
    requires
        re@ == numbered_reference_pattern(),
    ensures
        r@.len() == regex_first_groups(re@, text@).len(),
        forall|i: int| 0 <= i < r@.len() ==> (#[trigger] r@[i])@ == regex_first_groups(re@, text@)[i],
{
    re.regex.captures_iter(text).map(|caps| caps[1].to_string()).collect()
}

/// Compiles `pattern` with `regex::Regex::new`. The contract claims that this
/// succeeds exactly when `regex_compiles` holds of the pattern, and that the
/// result remembers the pattern it was compiled from.
#[verifier::external_body]
pub(crate) fn compile(pattern: &str) -> (r: Result<AnchoredRegex, regex::Error>)
    ensures
        r is Ok <==> regex_compiles(pattern@),
        r matches Ok(re) ==> re@ == pattern@,
{
    match regex::Regex::new(pattern) {
        Ok(regex) => Ok(AnchoredRegex { pattern: pattern.to_string(), regex }),
        Err(err) => Err(err),
    }
}

/// Runs `regex::Regex::find` on `haystack` and returns the end of the match.
/// The contract claims that the result is `regex_find_end` of the pattern and
/// the haystack, and, as the crate documents for `Match::end`, that a match
/// ends within the haystack on a character boundary.
#[verifier::external_body]
fn find_end(re: &AnchoredRegex, haystack: &str) -> (r: Option<usize>)
    ensures
        r matches Some(e) ==> regex_find_end(re@, haystack@) == Some(e as nat)
            && e <= haystack.spec_bytes().len() && is_char_boundary(haystack.spec_bytes(), e as int),
        r is None ==> regex_find_end(re@, haystack@) is None,
{
    match re.regex.find(haystack) {
        Some(m) => Some(m.end()),
        None => None,
    }
}

/// Compiles `pattern` anchored at the start of the haystack.
fn compile_anchored(pattern: &str) -> (r: Result<AnchoredRegex, regex::Error>)
    ensures
        r is Ok <==> regex_compiles(anchored(pattern@)),
        r matches Ok(re) ==> re@ == anchored(pattern@),
{
    let mut anchored_pattern = String::from_str("\\A");
    proof {
        reveal_strlit("\\A");
    }
    anchored_pattern.append(pattern);
    assert(anchored_pattern@ =~= anchored(pattern@));
    compile(&anchored_pattern)
}

/// The end of the match of `pattern` at the start of `haystack`.
pub open spec fn match_end(pattern: Seq<char>, haystack: Seq<char>) -> Option<nat> {
    regex_find_end(pattern, haystack)
}

/// The longest end among the matches of the patterns in `ps`, or 0.
pub open spec fn max_match_end(ps: Seq<(u32, Seq<char>)>, haystack: Seq<char>) -> nat
    decreases ps.len(),
{
    if ps.len() == 0 {
        0
    } else {
        let m = max_match_end(ps.drop_last(), haystack);
        match match_end(ps.last().1, haystack) {
            Some(e) => if e > m {
                e
            } else {
                m
            },
            None => m,
        }
    }
}

/// The tags, in order, of the patterns of `ps` whose match ends at `end`.
pub open spec fn tags_ending_at(ps: Seq<(u32, Seq<char>)>, haystack: Seq<char>, end: nat) -> Seq<u32>
    decreases ps.len(),
{
    if ps.len() == 0 {
        Seq::empty()
    } else {
        let ts = tags_ending_at(ps.drop_last(), haystack, end);
        if match_end(ps.last().1, haystack) == Some(end) {
            ts.push(ps.last().0)
        } else {
            ts
        }
    }
}

/// Some pattern of `ps` matches at the start of `haystack`.
pub open spec fn some_match(ps: Seq<Seq<char>>, haystack: Seq<char>) -> bool {
    exists|i: int| 0 <= i < ps.len() && (#[trigger] match_end(ps[i], haystack)) is Some
}

/// The first pattern of `ps` (in order) that matches at the start of `haystack`,
/// and the end of its match.
pub open spec fn first_match_end(ps: Seq<Seq<char>>, haystack: Seq<char>) -> Option<nat>
    decreases ps.len(),
{
    if ps.len() == 0 {
        None
    } else {
        match match_end(ps[0], haystack) {
            Some(e) => Some(e),
            None => first_match_end(ps.drop_first(), haystack),
        }
    }
}

/// The text at and after byte `i` of the UTF-8 encoded `bytes`.
pub open spec fn suffix_view(bytes: Seq<u8>, i: int) -> Seq<char> {
    vstd::utf8::decode_utf8(bytes.skip(i))
}

/// Number of bytes that the skip rules `ps` skip from byte `i` on: the first
/// rule that matches at the current position moves it past its match, and
/// skipping stops where none matches, where a match is empty, or at the end.
pub open spec fn skip_from(ps: Seq<Seq<char>>, bytes: Seq<u8>, i: nat) -> nat
    decreases bytes.len() - i,
{
    if i >= bytes.len() {
        i
    } else {
        match first_match_end(ps, suffix_view(bytes, i as int)) {
            Some(e) => if e > 0 && i + e <= bytes.len() {
                skip_from(ps, bytes, i + e)
            } else {
                i
            },
            None => i,
        }
    }
}

/// The patterns of a sequence of tagged patterns.
pub open spec fn patterns_of(ls: Seq<(u32, &str)>) -> Seq<Seq<char>> {
    ls.map_values(|l: (u32, &str)| l.1@)
}

/// The `i`th regex lexeme is acceptable: it is not empty and compiles once anchored.
pub open spec fn regex_ok(p: Seq<char>) -> bool {
    p.len() > 0 && regex_compiles(anchored(p))
}

/// Matches the regular expression lexemes, each anchored at the start of the text.
pub struct RegexMatcher {
    lexemes: Vec<(u32, AnchoredRegex)>,
}

impl View for RegexMatcher {
    type V = Seq<(u32, Seq<char>)>;

    /// The tags with their anchored patterns.
    closed spec fn view(&self) -> Seq<(u32, Seq<char>)> {
        self.lexemes@.map_values(|l: (u32, AnchoredRegex)| (l.0, l.1@))
    }
}

proof fn lemma_tags_ending_below(ps: Seq<(u32, Seq<char>)>, haystack: Seq<char>, e: nat)
    requires
        max_match_end(ps, haystack) < e,
    ensures
        tags_ending_at(ps, haystack, e) == Seq::<u32>::empty(),
    decreases ps.len(),
{
    if ps.len() > 0 {
        lemma_tags_ending_below(ps.drop_last(), haystack, e);
    }
}

impl RegexMatcher {
    /// Compiles the regex lexemes, each a tag with its pattern. Fails on the
    /// first lexeme whose pattern is empty or does not compile.
    pub fn new(lexeme_patterns: &[(u32, &str)]) -> (r: Result<RegexMatcher, LexanError>)
        ensures
            r is Ok <==> forall|i: int| 0 <= i < lexeme_patterns@.len() ==> regex_ok(#[trigger] lexeme_patterns@[i].1@),
            r matches Ok(m) ==> m@ == lexeme_patterns@.map_values(|l: (u32, &str)| (l.0, anchored(l.1@))),
            r matches Err(e) ==> exists|i: int| #![trigger lexeme_patterns@[i]]
                0 <= i < lexeme_patterns@.len() && !regex_ok(lexeme_patterns@[i].1@)
                && (forall|j: int| 0 <= j < i ==> regex_ok(#[trigger] lexeme_patterns@[j].1@))
                && if lexeme_patterns@[i].1@.len() == 0 {
                    e == LexanError::EmptyPattern(Some(lexeme_patterns@[i].0))
                } else {
                    e is RegexError
                },
    {
        let mut lexemes: Vec<(u32, AnchoredRegex)> = Vec::new();
        let mut i: usize = 0;
        while i < lexeme_patterns.len()
            invariant
                i <= lexeme_patterns@.len(),
                lexemes@.len() == i,
                forall|j: int| 0 <= j < i ==> regex_ok(#[trigger] lexeme_patterns@[j].1@),
                forall|j: int| 0 <= j < i ==> (#[trigger] lexemes@[j]).0 == lexeme_patterns@[j].0 && lexemes@[j].1@ == anchored(lexeme_patterns@[j].1@),
            decreases lexeme_patterns@.len() - i,
        {
            let (tag, pattern) = lexeme_patterns[i];
            proof {
                crate::text::lemma_bytes_empty(pattern);
            }
            if crate::text::byte_len(pattern) == 0 {
                assert(lexeme_patterns@[i as int].1 == pattern);
                assert(pattern@.len() == 0);
                assert(!regex_ok(lexeme_patterns@[i as int].1@));
                return Err(LexanError::EmptyPattern(Some(tag)));
            }
            match compile_anchored(pattern) {
                Ok(regex) => {
                    lexemes.push((tag, regex));
                },
                Err(err) => {
                    return Err(LexanError::RegexError(err));
                },
            }
            i = i + 1;
        }
        let r = RegexMatcher { lexemes };
        assert(r@ =~= lexeme_patterns@.map_values(|l: (u32, &str)| (l.0, anchored(l.1@))));
        Ok(r)
    }

    /// The tags of the regex lexemes whose matches at the start of `text` are
    /// the longest, in the order of their definition, and the length of those
    /// matches (0, with the tags of any empty matches, where none is longer).
    pub fn longest_matches(&self, text: &str) -> (r: (Vec<u32>, usize))
        ensures
            r.1 == max_match_end(self@, text@),
            r.0@ == tags_ending_at(self@, text@, r.1 as nat),
            r.1 <= text.spec_bytes().len(),
            is_char_boundary(text.spec_bytes(), r.1 as int),
    {
        let mut matches: Vec<u32> = Vec::new();
        let mut largest_end: usize = 0;
        let mut i: usize = 0;
        proof {
            vstd::utf8::encode_utf8_valid_utf8(text@);
            vstd::utf8::is_char_boundary_start_end_of_seq(text.spec_bytes());
        }
        while i < self.lexemes.len()
            invariant
                i <= self.lexemes@.len(),
                largest_end <= text.spec_bytes().len(),
                is_char_boundary(text.spec_bytes(), largest_end as int),
                largest_end == max_match_end(self@.take(i as int), text@),
                matches@ == tags_ending_at(self@.take(i as int), text@, largest_end as nat),
            decreases self.lexemes@.len() - i,
        {
            let ghost ps = self@.take(i + 1);
            assert(ps.drop_last() =~= self@.take(i as int));
            assert(ps.last() == self@[i as int]);
            let tag = self.lexemes[i].0;
            match find_end(&self.lexemes[i].1, text) {
                Some(end) => {
                    if end == largest_end {
                        matches.push(tag);
                    } else if end > largest_end {
                        proof {
                            lemma_tags_ending_below(self@.take(i as int), text@, end as nat);
                        }
                        largest_end = end;
                        matches = Vec::new();
                        matches.push(tag);
                        assert(matches@ =~= seq![tag]);
                    } else {
                        proof {
                            lemma_tags_ending_below(self@.take(i as int), text@, largest_end as nat + 1);
                        }
                    }
                },
                None => {},
            }
            i = i + 1;
        }
        assert(self@.take(self.lexemes@.len() as int) =~= self@);
        (matches, largest_end)
    }

    /// Whether some regex lexeme matches at the start of `text`.
    pub fn matches(&self, text: &str) -> (r: bool)
        ensures
            r == some_match(self@.map_values(|l: (u32, Seq<char>)| l.1), text@),
    {
        let ghost ps = self@.map_values(|l: (u32, Seq<char>)| l.1);
        let mut i: usize = 0;
        while i < self.lexemes.len()
            invariant
                i <= self.lexemes@.len(),
                ps == self@.map_values(|l: (u32, Seq<char>)| l.1),
                forall|j: int| 0 <= j < i ==> (#[trigger] match_end(ps[j], text@)) is None,
            decreases self.lexemes@.len() - i,
        {
            let found = find_end(&self.lexemes[i].1, text);
            assert(ps[i as int] == self.lexemes@[i as int].1@);
            if found.is_some() {
                assert(match_end(ps[i as int], text@) is Some);
                return true;
            }
            assert(ps[i as int] == self.lexemes@[i as int].1@);
            i = i + 1;
        }
        false
    }
}

/// Matches the skip rules, each anchored at the start of the text.
pub struct SkipMatcher {
    regexes: Vec<AnchoredRegex>,
}

impl View for SkipMatcher {
    type V = Seq<Seq<char>>;

    /// The anchored patterns.
    closed spec fn view(&self) -> Seq<Seq<char>> {
        self.regexes@.map_values(|r: AnchoredRegex| r@)
    }
}

impl SkipMatcher {
    /// Compiles the skip rules. Fails on the first rule that is empty or does
    /// not compile.
    pub fn new(regex_strs: &[&str]) -> (r: Result<SkipMatcher, LexanError>)
        ensures
            r is Ok <==> forall|i: int| 0 <= i < regex_strs@.len() ==> regex_ok(#[trigger] regex_strs@[i]@),
            r matches Ok(m) ==> m@ == regex_strs@.map_values(|s: &str| anchored(s@)),
            r matches Err(e) ==> exists|i: int| #![trigger regex_strs@[i]]
                0 <= i < regex_strs@.len() && !regex_ok(regex_strs@[i]@)
                && (forall|j: int| 0 <= j < i ==> regex_ok(#[trigger] regex_strs@[j]@))
                && if regex_strs@[i]@.len() == 0 {
                    e == LexanError::EmptyPattern(None)
                } else {
                    e is RegexError
                },
    {
        let mut regexes: Vec<AnchoredRegex> = Vec::new();
        let mut i: usize = 0;
        while i < regex_strs.len()
            invariant
                i <= regex_strs@.len(),
                regexes@.len() == i,
                forall|j: int| 0 <= j < i ==> regex_ok(#[trigger] regex_strs@[j]@),
                forall|j: int| 0 <= j < i ==> (#[trigger] regexes@[j])@ == anchored(regex_strs@[j]@),
            decreases regex_strs@.len() - i,
        {
            let pattern = regex_strs[i];
            proof {
                crate::text::lemma_bytes_empty(pattern);
            }
            if crate::text::byte_len(pattern) == 0 {
                assert(pattern@.len() == 0);
                assert(!regex_ok(regex_strs@[i as int]@));
                return Err(LexanError::EmptyPattern(None));
            }
            match compile_anchored(pattern) {
                Ok(regex) => {
                    regexes.push(regex);
                },
                Err(err) => {
                    return Err(LexanError::RegexError(err));
                },
            }
            i = i + 1;
        }
        let r = SkipMatcher { regexes };
        assert(r@ =~= regex_strs@.map_values(|s: &str| anchored(s@)));
        Ok(r)
    }

    /// The end of the match of the first skip rule that matches at the start of `text`.
    fn first_match(&self, text: &str) -> (r: Option<usize>)
        ensures
            r matches Some(e) ==> first_match_end(self@, text@) == Some(e as nat) && e <= text.spec_bytes().len()
                && is_char_boundary(text.spec_bytes(), e as int),
            r is None ==> first_match_end(self@, text@) is None,
    {
        let mut i: usize = 0;
        assert(self@.skip(0) =~= self@);
        while i < self.regexes.len()
            invariant
                i <= self.regexes@.len(),
                first_match_end(self@, text@) == first_match_end(self@.skip(i as int), text@),
            decreases self.regexes@.len() - i,
        {
            let ghost rest = self@.skip(i as int);
            assert(rest.drop_first() =~= self@.skip(i + 1));
            assert(rest[0] == self.regexes@[i as int]@);
            if let Some(e) = find_end(&self.regexes[i], text) {
                return Some(e);
            }
            i = i + 1;
        }
        None
    }

    /// Whether some skip rule matches at the start of `text`.
    pub fn matches(&self, text: &str) -> (r: bool)
        ensures
            r == some_match(self@, text@),
    {
        let mut i: usize = 0;
        while i < self.regexes.len()
            invariant
                i <= self.regexes@.len(),
                forall|j: int| 0 <= j < i ==> (#[trigger] match_end(self@[j], text@)) is None,
            decreases self.regexes@.len() - i,
        {
            let found = find_end(&self.regexes[i], text);
            assert(self@[i as int] == self.regexes@[i as int]@);
            if found.is_some() {
                assert(match_end(self@[i as int], text@) is Some);
                return true;
            }
            assert(self@[i as int] == self.regexes@[i as int]@);
            i = i + 1;
        }
        false
    }

    /// Number of skippable bytes at the start of `text`.
    pub fn skippable_count(&self, text: &str) -> (r: usize)
        ensures
            r == skip_from(self@, text.spec_bytes(), 0),
            r <= text.spec_bytes().len(),
            is_char_boundary(text.spec_bytes(), r as int),
    {
        let ghost bytes = text.spec_bytes();
        proof {
            vstd::utf8::encode_utf8_valid_utf8(text@);
            vstd::utf8::is_char_boundary_start_end_of_seq(bytes);
        }
        let mut index: usize = 0;
        let len = crate::text::byte_len(text);
        while index < len
            invariant
                bytes == text.spec_bytes(),
                len == bytes.len(),
                vstd::utf8::valid_utf8(bytes),
                index <= bytes.len(),
                is_char_boundary(bytes, index as int),
                skip_from(self@, bytes, index as nat) == skip_from(self@, bytes, 0),
            decreases bytes.len() - index,
        {
            let (_, rest) = text.split_at(index);
            proof {
                crate::text::lemma_split_view(text, index as int, rest);
            }
            match self.first_match(rest) {
                Some(e) => {
                    if e == 0 {
                        return index;
                    }
                    assert(rest.spec_bytes().len() == bytes.len() - index);
                    proof {
                        crate::text::lemma_boundary_shift(bytes, index as int, e as int);
                    }
                    index = index + e;
                },
                None => {
                    return index;
                },
            }
        }
        assert(skip_from(self@, bytes, index as nat) == index);
        index
    }
}

} // verus!
