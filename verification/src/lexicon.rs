//! The lexicon of a lexical analyser: its literal and regex lexemes, its skip
//! rules and its end marker.

use vstd::prelude::*;
use vstd::string::StringSliceAdditionalSpecFns;
use vstd::utf8::is_char_boundary;

use crate::error::LexanError;
use crate::literal_matcher::{
    has_prefix_match, lexeme_bytes, literal_ok_at, longest_prefix_match, pattern_map,
    LiteralMatcher,
};
use crate::regex_matcher::{
    anchored, max_match_end, regex_ok, skip_from, some_match, suffix_view, tags_ending_at,
    RegexMatcher, SkipMatcher,
};

verus! {

/// A tagged pattern by the characters of its pattern.
pub open spec fn entry_view(l: (u32, &str)) -> (u32, Seq<char>) {
    (l.0, l.1@)
}

/// All the tagged lexemes, literal ones first.
pub open spec fn entries_of(literal: Seq<(u32, &str)>, regex: Seq<(u32, &str)>) -> Seq<(u32, Seq<char>)> {
    (literal + regex).map_values(|l: (u32, &str)| entry_view(l))
}

/// The `k`th entry reuses a tag: the end marker or that of an earlier entry.
pub open spec fn duplicate_handle_at(es: Seq<(u32, Seq<char>)>, end_marker: u32, k: int) -> bool {
    es[k].0 == end_marker || exists|j: int| 0 <= j < k && #[trigger] es[j].0 == es[k].0
}

/// The `k`th entry reuses the pattern of an earlier entry.
pub open spec fn duplicate_pattern_at(es: Seq<(u32, Seq<char>)>, k: int) -> bool {
    exists|j: int| 0 <= j < k && #[trigger] es[j].1 == es[k].1
}

/// The `k`th entry is refused by the checks for duplicates.
pub open spec fn entry_bad_at(es: Seq<(u32, Seq<char>)>, end_marker: u32, k: int) -> bool {
    duplicate_handle_at(es, end_marker, k) || duplicate_pattern_at(es, k)
}

/// The `k`th skip rule repeats the pattern of an entry or of an earlier skip rule.
pub open spec fn skip_bad_at(es: Seq<(u32, Seq<char>)>, skips: Seq<Seq<char>>, k: int) -> bool {
    (exists|j: int| 0 <= j < es.len() && #[trigger] es[j].1 == skips[k])
    || (exists|j: int| 0 <= j < k && #[trigger] skips[j] == skips[k])
}

/// `k` is the first entry refused by the checks for duplicates.
pub open spec fn first_bad_entry(es: Seq<(u32, Seq<char>)>, end_marker: u32, k: int) -> bool {
    0 <= k < es.len() && entry_bad_at(es, end_marker, k) && forall|j: int| 0 <= j < k ==> !#[trigger] entry_bad_at(es, end_marker, j)
}

/// `k` is the first skip rule refused as a duplicate.
pub open spec fn first_bad_skip(es: Seq<(u32, Seq<char>)>, sk: Seq<Seq<char>>, k: int) -> bool {
    0 <= k < sk.len() && skip_bad_at(es, sk, k) && forall|j: int| 0 <= j < k ==> !#[trigger] skip_bad_at(es, sk, j)
}

/// `k` is the first literal lexeme that the literal matcher refuses.
pub open spec fn first_bad_literal(ls: Seq<(u32, Seq<u8>)>, k: int) -> bool {
    0 <= k < ls.len() && !literal_ok_at(ls, k) && forall|j: int| 0 <= j < k ==> #[trigger] literal_ok_at(ls, j)
}

/// `k` is the first pattern of `ps` that the regex matchers refuse.
pub open spec fn first_bad_regex(ps: Seq<Seq<char>>, k: int) -> bool {
    0 <= k < ps.len() && !regex_ok(ps[k]) && forall|j: int| 0 <= j < k ==> regex_ok(#[trigger] ps[j])
}

/// Where a lexeme definition is found wrong, and what is then reported.
pub open spec fn lexicon_error(
    literal: Seq<(u32, &str)>,
    regex: Seq<(u32, &str)>,
    skips: Seq<&str>,
    end_marker: u32,
    e: LexanError,
) -> bool {
    let es = entries_of(literal, regex);
    let sk = skips.map_values(|s: &str| s@);
    let ls = lexeme_bytes(literal);
    let rp = regex.map_values(|l: (u32, &str)| l.1@);
    let sp = skips.map_values(|s: &str| s@);
    if exists|k: int| 0 <= k < es.len() && #[trigger] entry_bad_at(es, end_marker, k) {
        exists|k: int| #[trigger] first_bad_entry(es, end_marker, k)
            && if duplicate_handle_at(es, end_marker, k) {
                e == LexanError::DuplicateHandle(es[k].0)
            } else {
                (e matches LexanError::DuplicatePattern(s) && s@ == es[k].1)
            }
    } else if exists|k: int| 0 <= k < sk.len() && #[trigger] skip_bad_at(es, sk, k) {
        exists|k: int| #[trigger] first_bad_skip(es, sk, k)
            && (e matches LexanError::DuplicatePattern(s) && s@ == sk[k])
    } else if exists|k: int| 0 <= k < ls.len() && !#[trigger] literal_ok_at(ls, k) {
        exists|k: int| #[trigger] first_bad_literal(ls, k)
            && e == LexanError::EmptyPattern(Some(literal[k].0))
    } else if exists|k: int| 0 <= k < regex.len() && !regex_ok(#[trigger] regex[k].1@) {
        exists|k: int| #[trigger] first_bad_regex(rp, k)
            && if regex[k].1@.len() == 0 {
                e == LexanError::EmptyPattern(Some(regex[k].0))
            } else {
                e is RegexError
            }
    } else {
        exists|k: int| #[trigger] first_bad_regex(sp, k)
            && if skips[k]@.len() == 0 {
                e == LexanError::EmptyPattern(None)
            } else {
                e is RegexError
            }
    }
}

/// Every definition is acceptable.
pub open spec fn lexicon_ok(
    literal: Seq<(u32, &str)>,
    regex: Seq<(u32, &str)>,
    skips: Seq<&str>,
    end_marker: u32,
) -> bool {
    let es = entries_of(literal, regex);
    let sk = skips.map_values(|s: &str| s@);
    &&& forall|k: int| 0 <= k < es.len() ==> !#[trigger] entry_bad_at(es, end_marker, k)
    &&& forall|k: int| 0 <= k < sk.len() ==> !#[trigger] skip_bad_at(es, sk, k)
    &&& forall|k: int| 0 <= k < literal.len() ==> #[trigger] literal[k].1@.len() > 0
    &&& forall|k: int| 0 <= k < regex.len() ==> regex_ok(#[trigger] regex[k].1@)
    &&& forall|k: int| 0 <= k < skips.len() ==> regex_ok(#[trigger] skips[k]@)
}

/// Abstract value of a [`Lexicon`].
pub struct LexiconView {
    /// Each literal pattern (as bytes) with its tag.
    pub literals: Map<Seq<u8>, u32>,
    /// Each regex lexeme's tag with its anchored pattern, in order.
    pub regexes: Seq<(u32, Seq<char>)>,
    /// The anchored skip rules, in order.
    pub skips: Seq<Seq<char>>,
    pub end_marker: u32,
}

/// Some lexeme or skip rule matches at byte `i` of `bytes`, a character boundary.
pub open spec fn valid_at(v: LexiconView, bytes: Seq<u8>, i: int) -> bool {
    &&& is_char_boundary(bytes, i)
    &&& {
        ||| has_prefix_match(v.literals, bytes.skip(i))
        ||| some_match(v.regexes.map_values(|l: (u32, Seq<char>)| l.1), suffix_view(bytes, i))
        ||| some_match(v.skips, suffix_view(bytes, i))
    }
}

/// The first position of `bytes` at which valid content starts, or its length.
pub open spec fn next_valid(v: LexiconView, bytes: Seq<u8>, n: nat) -> bool {
    &&& n <= bytes.len()
    &&& n < bytes.len() ==> valid_at(v, bytes, n as int)
    &&& forall|i: int| 0 <= i < n ==> !#[trigger] valid_at(v, bytes, i)
}

/// The lexemes, skip rules and end marker of a lexical analyser.
pub struct Lexicon {
    literal_matcher: LiteralMatcher,
    regex_matcher: RegexMatcher,
    skip_matcher: SkipMatcher,
    end_marker: u32,
}

impl View for Lexicon {
    type V = LexiconView;

    closed spec fn view(&self) -> LexiconView {
        LexiconView {
            literals: self.literal_matcher@,
            regexes: self.regex_matcher@,
            skips: self.skip_matcher@,
            end_marker: self.end_marker,
        }
    }
}

/// Equality of two byte strings.
fn bytes_equal(a: &[u8], b: &[u8]) -> (r: bool)
    ensures
        r == (a@ == b@),
{
    if a.len() != b.len() {
        return false;
    }
    let mut i: usize = 0;
    while i < a.len()
        invariant
            a@.len() == b@.len(),
            i <= a@.len(),
            forall|j: int| 0 <= j < i ==> a@[j] == b@[j],
        decreases a@.len() - i,
    {
        if a[i] != b[i] {
            return false;
        }
        i = i + 1;
    }
    assert(a@ =~= b@);
    true
}

/// Equality of two strings.
pub fn str_equal(a: &str, b: &str) -> (r: bool)
    ensures
        r == (a@ == b@),
{
    proof {
        vstd::utf8::encode_utf8_decode_utf8(a@);
        vstd::utf8::encode_utf8_decode_utf8(b@);
    }
    bytes_equal(a.as_bytes(), b.as_bytes())
}

impl Lexicon {
    pub closed spec fn wf(&self) -> bool {
        &&& self.literal_matcher.wf()
        &&& forall|p: Seq<u8>| #[trigger] self.literal_matcher@.contains_key(p) ==> vstd::utf8::valid_utf8(p)
    }

    /// Builds a lexicon from its literal lexemes, regex lexemes and skip rules
    /// (each given as a tag with its pattern) and its end marker. Tags and
    /// patterns must not repeat, patterns must not be empty and regexes must
    /// compile; the first definition found wrong is reported.
    pub fn new(
        literal_lexemes: &[(u32, &str)],
        regex_lexemes: &[(u32, &str)],
        skip_regexes: &[&str],
        end_marker: u32,
    ) -> (r: Result<Lexicon, LexanError>)
        requires
            literal_lexemes@.len() + regex_lexemes@.len() + skip_regexes@.len() <= usize::MAX,
        ensures
            r is Ok <==> lexicon_ok(literal_lexemes@, regex_lexemes@, skip_regexes@, end_marker),
            r matches Ok(lex) ==> lex.wf() && lex@ == (LexiconView {
                literals: pattern_map(lexeme_bytes(literal_lexemes@)),
                regexes: regex_lexemes@.map_values(|l: (u32, &str)| (l.0, anchored(l.1@))),
                skips: skip_regexes@.map_values(|s: &str| anchored(s@)),
                end_marker,
            }),
            r matches Err(e) ==> lexicon_error(literal_lexemes@, regex_lexemes@, skip_regexes@, end_marker, e),
    {
        let ghost es = entries_of(literal_lexemes@, regex_lexemes@);
        let ghost sk = skip_regexes@.map_values(|s: &str| s@);
        let nl = literal_lexemes.len();
        let n = nl + regex_lexemes.len();
        let mut tags: Vec<u32> = Vec::new();
        let mut patterns: Vec<&str> = Vec::new();
        let mut k: usize = 0;
        while k < n
            invariant
                nl == literal_lexemes@.len(),
                n == es.len(),
                es == entries_of(literal_lexemes@, regex_lexemes@),
                k <= n,
                tags@.len() == k,
                patterns@.len() == k,
                n + skip_regexes@.len() <= usize::MAX,
                forall|j: int| 0 <= j < k ==> #[trigger] tags@[j] == es[j].0,
                forall|j: int| 0 <= j < k ==> #[trigger] patterns@[j]@ == es[j].1,
                forall|j: int| 0 <= j < k ==> !#[trigger] entry_bad_at(es, end_marker, j),
            decreases n - k,
        {
            let (tag, pattern) = if k < nl {
                literal_lexemes[k]
            } else {
                regex_lexemes[k - nl]
            };
            assert(es[k as int] == (tag, pattern@));
            if tag == end_marker {
                proof {
                    assert(entry_bad_at(es, end_marker, k as int));
                    assert(first_bad_entry(es, end_marker, k as int));
                    lemma_entry_error(literal_lexemes@, regex_lexemes@, skip_regexes@, end_marker, k as int, LexanError::DuplicateHandle(tag));
                }
                return Err(LexanError::DuplicateHandle(tag));
            }
            let mut j: usize = 0;
            while j < k
                invariant
                    j <= k,
                    k < n,
                    n == es.len(),
                    es == entries_of(literal_lexemes@, regex_lexemes@),
                    tags@.len() == k,
                    patterns@.len() == k,
                    es[k as int] == (tag, pattern@),
                    forall|jj: int| 0 <= jj < k ==> #[trigger] tags@[jj] == es[jj].0,
                    forall|jj: int| 0 <= jj < k ==> #[trigger] patterns@[jj]@ == es[jj].1,
                    forall|jj: int| 0 <= jj < k ==> !#[trigger] entry_bad_at(es, end_marker, jj),
                    forall|jj: int| 0 <= jj < j ==> #[trigger] es[jj].0 != tag,
                decreases k - j,
            {
                if tags[j] == tag {
                    proof {
                        assert(es[j as int].0 == es[k as int].0);
                        assert(entry_bad_at(es, end_marker, k as int));
                        assert(first_bad_entry(es, end_marker, k as int));
                        lemma_entry_error(literal_lexemes@, regex_lexemes@, skip_regexes@, end_marker, k as int, LexanError::DuplicateHandle(tag));
                    }
                    return Err(LexanError::DuplicateHandle(tag));
                }
                j = j + 1;
            }
            let mut j: usize = 0;
            while j < k
                invariant
                    j <= k,
                    k < n,
                    n == es.len(),
                    es == entries_of(literal_lexemes@, regex_lexemes@),
                    tags@.len() == k,
                    patterns@.len() == k,
                    es[k as int] == (tag, pattern@),
                    forall|jj: int| 0 <= jj < k ==> #[trigger] tags@[jj] == es[jj].0,
                    forall|jj: int| 0 <= jj < k ==> #[trigger] patterns@[jj]@ == es[jj].1,
                    forall|jj: int| 0 <= jj < k ==> !#[trigger] entry_bad_at(es, end_marker, jj),
                    forall|jj: int| 0 <= jj < k ==> #[trigger] es[jj].0 != tag,
                    tag != end_marker,
                    forall|jj: int| 0 <= jj < j ==> #[trigger] es[jj].1 != pattern@,
                decreases k - j,
            {
                if str_equal(patterns[j], pattern) {
                    proof {
                        assert(es[j as int].1 == es[k as int].1);
                        assert(!duplicate_handle_at(es, end_marker, k as int));
                        assert(entry_bad_at(es, end_marker, k as int));
                        assert(first_bad_entry(es, end_marker, k as int));
                    }
                    let e = LexanError::DuplicatePattern(pattern.to_string());
                    proof {
                        lemma_entry_error(literal_lexemes@, regex_lexemes@, skip_regexes@, end_marker, k as int, e);
                    }
                    return Err(e);
                }
                j = j + 1;
            }
            tags.push(tag);
            patterns.push(pattern);
            k = k + 1;
        }
        let ns = skip_regexes.len();
        let mut k: usize = 0;
        while k < ns
            invariant
                ns == sk.len(),
                sk == skip_regexes@.map_values(|s: &str| s@),
                n == es.len(),
                es == entries_of(literal_lexemes@, regex_lexemes@),
                n + ns <= usize::MAX,
                k <= ns,
                patterns@.len() == n + k,
                forall|j: int| 0 <= j < n ==> #[trigger] patterns@[j]@ == es[j].1,
                forall|j: int| 0 <= j < k ==> #[trigger] patterns@[n + j]@ == sk[j],
                forall|j: int| 0 <= j < es.len() ==> !#[trigger] entry_bad_at(es, end_marker, j),
                forall|j: int| 0 <= j < k ==> !#[trigger] skip_bad_at(es, sk, j),
            decreases ns - k,
        {
            let regex = skip_regexes[k];
            assert(sk[k as int] == regex@);
            let mut j: usize = 0;
            while j < n + k
                invariant
                    j <= n + k,
                    k < ns,
                    ns == sk.len(),
                    n == es.len(),
                    es == entries_of(literal_lexemes@, regex_lexemes@),
                    sk == skip_regexes@.map_values(|s: &str| s@),
                    n + ns <= usize::MAX,
                    patterns@.len() == n + k,
                    sk[k as int] == regex@,
                    forall|jj: int| 0 <= jj < es.len() ==> !#[trigger] entry_bad_at(es, end_marker, jj),
                    forall|jj: int| 0 <= jj < k ==> !#[trigger] skip_bad_at(es, sk, jj),
                    forall|jj: int| 0 <= jj < n ==> #[trigger] patterns@[jj]@ == es[jj].1,
                    forall|jj: int| 0 <= jj < k ==> #[trigger] patterns@[n + jj]@ == sk[jj],
                    forall|jj: int| 0 <= jj < j && jj < n ==> #[trigger] es[jj].1 != regex@,
                    forall|jj: int| 0 <= jj < j - n ==> #[trigger] sk[jj] != regex@,
                decreases n + k - j,
            {
                if str_equal(patterns[j], regex) {
                    proof {
                        if j < n {
                            assert(es[j as int].1 == sk[k as int]);
                        } else {
                            assert(patterns@[n + (j - n)]@ == sk[j - n]);
                            assert(sk[j - n] == sk[k as int]);
                        }
                        assert(skip_bad_at(es, sk, k as int));
                        assert(first_bad_skip(es, sk, k as int));
                    }
                    let e = LexanError::DuplicatePattern(regex.to_string());
                    proof {
                        lemma_skip_error(literal_lexemes@, regex_lexemes@, skip_regexes@, end_marker, k as int, e);
                    }
                    return Err(e);
                }
                proof {
                    if j >= n {
                        assert(patterns@[n + (j - n)]@ == sk[j - n]);
                    }
                }
                j = j + 1;
            }
            patterns.push(regex);
            proof {
                assert(!skip_bad_at(es, sk, k as int)) by {
                    if exists|jj: int| 0 <= jj < k && #[trigger] sk[jj] == sk[k as int] {
                        let jj = choose|jj: int| 0 <= jj < k && #[trigger] sk[jj] == sk[k as int];
                        assert(jj < j - n);
                    }
                }
                assert(patterns@[n + k as int]@ == sk[k as int]);
            }
            k = k + 1;
        }
        proof {
            assert forall|kk: int| 0 <= kk < es.len() implies !#[trigger] entry_bad_at(es, end_marker, kk) by {}
            assert(!(exists|kk: int| 0 <= kk < es.len() && #[trigger] entry_bad_at(es, end_marker, kk)));
            assert(!(exists|kk: int| 0 <= kk < sk.len() && #[trigger] skip_bad_at(es, sk, kk)));
            lemma_literal_ok(literal_lexemes@, regex_lexemes@, end_marker);
        }
        let literal_matcher = match LiteralMatcher::new(literal_lexemes) {
            Ok(m) => m,
            Err(e) => {
                proof {
                    let ls = lexeme_bytes(literal_lexemes@);
                    let kk = choose|kk: int| #![trigger literal_lexemes@[kk]]
                        0 <= kk < literal_lexemes@.len() && !literal_ok_at(ls, kk)
                        && (forall|j: int| 0 <= j < kk ==> literal_ok_at(ls, j))
                        && if literal_lexemes@[kk].1@.len() == 0 {
                            e == LexanError::EmptyPattern(Some(literal_lexemes@[kk].0))
                        } else {
                            e matches LexanError::DuplicatePattern(s) && s@ == literal_lexemes@[kk].1@
                        };
                    assert(!literal_ok_at(ls, kk));
                    assert(first_bad_literal(ls, kk));
                }
                return Err(e);
            },
        };
        let regex_matcher = match RegexMatcher::new(regex_lexemes) {
            Ok(m) => m,
            Err(e) => {
                proof {
                    let kk = choose|kk: int| #![trigger regex_lexemes@[kk]]
                        0 <= kk < regex_lexemes@.len() && !regex_ok(regex_lexemes@[kk].1@)
                        && (forall|j: int| 0 <= j < kk ==> regex_ok(#[trigger] regex_lexemes@[j].1@))
                        && if regex_lexemes@[kk].1@.len() == 0 {
                            e == LexanError::EmptyPattern(Some(regex_lexemes@[kk].0))
                        } else {
                            e is RegexError
                        };
                    assert(first_bad_regex(regex_lexemes@.map_values(|l: (u32, &str)| l.1@), kk));
                }
                return Err(e);
            },
        };
        let skip_matcher = match SkipMatcher::new(skip_regexes) {
            Ok(m) => m,
            Err(e) => {
                proof {
                    let kk = choose|kk: int| #![trigger skip_regexes@[kk]]
                        0 <= kk < skip_regexes@.len() && !regex_ok(skip_regexes@[kk]@)
                        && (forall|j: int| 0 <= j < kk ==> regex_ok(#[trigger] skip_regexes@[j]@))
                        && if skip_regexes@[kk]@.len() == 0 {
                            e == LexanError::EmptyPattern(None)
                        } else {
                            e is RegexError
                        };
                    assert(first_bad_regex(skip_regexes@.map_values(|s: &str| s@), kk));
                }
                return Err(e);
            },
        };
        proof {
            let ls = lexeme_bytes(literal_lexemes@);
            crate::literal_matcher::lemma_pattern_map_facts(ls);
            assert forall|p: Seq<u8>| #[trigger] literal_matcher@.contains_key(p) implies vstd::utf8::valid_utf8(p) by {
                let i = choose|i: int| 0 <= i < ls.len() && ls[i].1 == p;
                vstd::utf8::encode_utf8_valid_utf8(literal_lexemes@[i].1@);
            }
        }
        Ok(Lexicon { literal_matcher, regex_matcher, skip_matcher, end_marker })
    }

    /// The end marker of this lexicon.
    pub fn end_marker(&self) -> (r: u32)
        ensures
            r == self@.end_marker,
    {
        self.end_marker
    }

    /// Number of skippable bytes at the start of `text`.
    pub fn skippable_count(&self, text: &str) -> (r: usize)
        ensures
            r == skip_from(self@.skips, text.spec_bytes(), 0),
            r <= text.spec_bytes().len(),
            is_char_boundary(text.spec_bytes(), r as int),
    {
        self.skip_matcher.skippable_count(text)
    }

    /// The longest literal match at the start of `text`.
    pub fn longest_literal_match(&self, text: &str) -> (r: Option<(u32, usize)>)
        requires
            self.wf(),
        ensures
            r == match longest_prefix_match(self@.literals, text.spec_bytes()) {
                Some((t, l)) => Some((t, l as usize)),
                None => None,
            },
            r matches Some((t, l)) ==> l <= text.spec_bytes().len() && is_char_boundary(text.spec_bytes(), l as int),
            longest_prefix_match(self@.literals, text.spec_bytes()) matches Some((t, l)) ==> l <= text.spec_bytes().len(),
    {
        let r = self.literal_matcher.longest_match(text);
        let _n = crate::text::byte_len(text);
        proof {
            let b = text.spec_bytes();
            crate::literal_matcher::lemma_longest_upto_facts(self@.literals, b, b.len());
            if let Some((t, l)) = r {
                vstd::utf8::encode_utf8_valid_utf8(text@);
                assert(self.literal_matcher@.contains_key(b.take(l as int)));
                crate::text::lemma_prefix_boundary(b, b.take(l as int));
            }
        }
        r
    }

    /// The longest regular expression matches at the start of `text`.
    pub fn longest_regex_matches(&self, text: &str) -> (r: (Vec<u32>, usize))
        ensures
            r.1 == max_match_end(self@.regexes, text@),
            r.0@ == tags_ending_at(self@.regexes, text@, r.1 as nat),
            r.1 <= text.spec_bytes().len(),
            is_char_boundary(text.spec_bytes(), r.1 as int),
    {
        self.regex_matcher.longest_matches(text)
    }

    /// The distance in bytes to the next valid content in `text`: the first
    /// character boundary at which a lexeme or a skip rule matches, or the
    /// length of the text.
    pub fn distance_to_next_valid_byte(&self, text: &str) -> (r: usize)
        requires
            self.wf(),
        ensures
            next_valid(self@, text.spec_bytes(), r as nat),
            is_char_boundary(text.spec_bytes(), r as int),
    {
        let ghost bytes = text.spec_bytes();
        let len = crate::text::byte_len(text);
        proof {
            vstd::utf8::encode_utf8_valid_utf8(text@);
            vstd::utf8::is_char_boundary_start_end_of_seq(bytes);
        }
        let mut index: usize = 0;
        while index < len
            invariant
                bytes == text.spec_bytes(),
                len == bytes.len(),
                vstd::utf8::valid_utf8(bytes),
                self.wf(),
                index <= len,
                forall|i: int| 0 <= i < index ==> !#[trigger] valid_at(self@, bytes, i),
            decreases len - index,
        {
            if text.is_char_boundary(index) {
                let (_, rest) = text.split_at(index);
                proof {
                    crate::text::lemma_split_view(text, index as int, rest);
                }
                if self.literal_matcher.matches(rest) || self.regex_matcher.matches(rest)
                    || self.skip_matcher.matches(rest) {
                    return index;
                }
            }
            index = index + 1;
        }
        index
    }
}

proof fn lemma_entry_error(
    literal: Seq<(u32, &str)>,
    regex: Seq<(u32, &str)>,
    skips: Seq<&str>,
    end_marker: u32,
    k: int,
    e: LexanError,
)
    requires
        first_bad_entry(entries_of(literal, regex), end_marker, k),
        if duplicate_handle_at(entries_of(literal, regex), end_marker, k) {
            e == LexanError::DuplicateHandle(entries_of(literal, regex)[k].0)
        } else {
            (e matches LexanError::DuplicatePattern(s) && s@ == entries_of(literal, regex)[k].1)
        },
    ensures
        lexicon_error(literal, regex, skips, end_marker, e),
        !lexicon_ok(literal, regex, skips, end_marker),
{
    let es = entries_of(literal, regex);
    assert(entry_bad_at(es, end_marker, k));
}

proof fn lemma_skip_error(
    literal: Seq<(u32, &str)>,
    regex: Seq<(u32, &str)>,
    skips: Seq<&str>,
    end_marker: u32,
    k: int,
    e: LexanError,
)
    requires
        forall|j: int| 0 <= j < entries_of(literal, regex).len() ==> !#[trigger] entry_bad_at(entries_of(literal, regex), end_marker, j),
        first_bad_skip(entries_of(literal, regex), skips.map_values(|s: &str| s@), k),
        e matches LexanError::DuplicatePattern(s) && s@ == skips[k]@,
    ensures
        lexicon_error(literal, regex, skips, end_marker, e),
        !lexicon_ok(literal, regex, skips, end_marker),
{
    let es = entries_of(literal, regex);
    let sk = skips.map_values(|s: &str| s@);
    assert(skip_bad_at(es, sk, k));
    assert(sk[k] == skips[k]@);
}

/// Where no entry is refused for a duplicate, the literal patterns do not repeat.
proof fn lemma_literal_ok(literal: Seq<(u32, &str)>, regex: Seq<(u32, &str)>, end_marker: u32)
    requires
        forall|k: int| 0 <= k < entries_of(literal, regex).len() ==> !#[trigger] entry_bad_at(entries_of(literal, regex), end_marker, k),
    ensures
        forall|k: int| 0 <= k < literal.len() ==> (literal_ok_at(lexeme_bytes(literal), k) <==> #[trigger] literal[k].1@.len() > 0),
{
    let es = entries_of(literal, regex);
    let ls = lexeme_bytes(literal);
    assert forall|k: int| 0 <= k < literal.len() implies (literal_ok_at(ls, k) <==> #[trigger] literal[k].1@.len() > 0) by {
        assert(es[k] == (literal[k].0, literal[k].1@));
        assert(!entry_bad_at(es, end_marker, k));
        crate::text::lemma_bytes_empty(literal[k].1);
        assert forall|j: int| 0 <= j < k implies #[trigger] ls[j].1 != ls[k].1 by {
            assert(es[j] == (literal[j].0, literal[j].1@));
            if ls[j].1 == ls[k].1 {
                vstd::utf8::encode_utf8_decode_utf8(literal[j].1@);
                vstd::utf8::encode_utf8_decode_utf8(literal[k].1@);
                assert(es[j].1 == es[k].1);
            }
        }
    }
}

} // verus!
