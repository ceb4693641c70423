//! A configurable lexical analyser.

use std::sync::Arc;

use vstd::prelude::*;
use vstd::string::StringSliceAdditionalSpecFns;

use crate::error::LexanError;
use crate::lexicon::{lexicon_error, lexicon_ok, Lexicon, LexiconView};
use crate::literal_matcher::{lexeme_bytes, pattern_map};
use crate::regex_matcher::anchored;
use crate::token_stream::{stream_inject, ErrorView, StreamView, TokenStream};
use crate::location::LocationView;

verus! {

/// A lexical analyser: a lexicon, shared by the token streams it makes.
pub struct LexicalAnalyzer {
    lexicon: Arc<Lexicon>,
}

impl View for LexicalAnalyzer {
    type V = LexiconView;

    closed spec fn view(&self) -> LexiconView {
        self.lexicon@
    }
}

impl LexicalAnalyzer {
    pub closed spec fn wf(&self) -> bool {
        self.lexicon.wf()
    }

    /// An analyser for the given literal lexemes, regex lexemes, skip rules and
    /// end marker; fails as [`Lexicon::new`] does.
    pub fn new(
        literal_lexemes: &[(u32, &str)],
        regex_lexemes: &[(u32, &str)],
        skip_regexes: &[&str],
        end_marker: u32,
    ) -> (r: Result<LexicalAnalyzer, LexanError>)
        requires
            literal_lexemes@.len() + regex_lexemes@.len() + skip_regexes@.len() <= usize::MAX,
        ensures
            r is Ok <==> lexicon_ok(literal_lexemes@, regex_lexemes@, skip_regexes@, end_marker),
            r matches Ok(a) ==> a.wf() && a@ == (LexiconView {
                literals: pattern_map(lexeme_bytes(literal_lexemes@)),
                regexes: regex_lexemes@.map_values(|l: (u32, &str)| (l.0, anchored(l.1@))),
                skips: skip_regexes@.map_values(|s: &str| anchored(s@)),
                end_marker,
            }),
            r matches Err(e) ==> lexicon_error(literal_lexemes@, regex_lexemes@, skip_regexes@, end_marker, e),
    {
        match Lexicon::new(literal_lexemes, regex_lexemes, skip_regexes, end_marker) {
            Ok(lexicon) => Ok(LexicalAnalyzer { lexicon: Arc::new(lexicon) }),
            Err(e) => Err(e),
        }
    }

    /// A stream of the tokens of `text`, labelled `label`.
    pub fn token_stream(&self, text: &str, label: &str) -> (r: TokenStream)
        requires
            self.wf(),
            text.spec_bytes().len() < usize::MAX,
        ensures
            r.wf(),
            r.lexicon_view() == self@,
            r@ == stream_inject(self@, StreamView {
                stack: Seq::empty(),
                front: Err(ErrorView::AdvancedWhenEmpty(LocationView { label: Seq::empty(), index: 0, line_number: 0, offset: 0 })),
            }, text.spec_bytes(), label@),
    {
        TokenStream::new(&self.lexicon, text, label)
    }
}

} // verus!
