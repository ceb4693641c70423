//! The parser generator: the parser of a grammar specification, and the
//! code of the parser it generates.

use vstd::prelude::*;

use crate::code::{parser_implementation_text, reductions_of_states, symbol_enum_text, texts_view, tokens_view};
use crate::description::is_look_ahead_of;
use crate::grammar::{grammar_built, Grammar, Specification};
use crate::parser::GrammarError;
use crate::terminal::{Token, TokenView};

verus! {

/// A parser generator: the parser of a specification, with the preamble,
/// the tokens, the skip rules and the code of the semantic actions that the
/// generated parser holds.
pub struct ParserGenerator {
    grammar: Grammar,
    preamble: String,
    tokens: Vec<Token>,
    skip_rules: Vec<String>,
    semantic_actions: String,
}

impl ParserGenerator {
    /// The parser of the specification.
    pub closed spec fn grammar_of(&self) -> Grammar {
        self.grammar
    }

    /// The code that precedes the generated parser.
    pub closed spec fn preamble_of(&self) -> Seq<char> {
        self.preamble@
    }

    /// The tokens of the specification.
    pub closed spec fn tokens_of(&self) -> Seq<TokenView> {
        tokens_view(self.tokens@)
    }

    /// The skip rules of the specification.
    pub closed spec fn skip_rules_of(&self) -> Seq<Seq<char>> {
        texts_view(self.skip_rules@)
    }

    /// The code of the semantic actions.
    pub closed spec fn semantic_actions_of(&self) -> Seq<char> {
        self.semantic_actions@
    }

    /// The parser is well formed.
    pub open spec fn wf(&self) -> bool {
        self.grammar_of().wf()
    }

    /// The parser generator of `specification`, whose generated code holds
    /// `preamble`, `tokens`, `skip_rules` and `semantic_actions`: the
    /// specification is refused as [`Grammar::try_from`] refuses it.
    pub fn new(
        specification: Specification,
        preamble: &str,
        tokens: Vec<Token>,
        skip_rules: Vec<String>,
        semantic_actions: String,
    ) -> (r: Result<ParserGenerator, GrammarError>)
        requires
            specification.wf(),
            specification.prods().len() > 0,
        ensures
            grammar_built(
                specification,
                match r {
                    Ok(pg) => Ok(pg.grammar_of()),
                    Err(e) => Err(e),
                },
            ),
            r matches Ok(pg) ==> {
                &&& pg.wf()
                &&& pg.preamble_of() == preamble@
                &&& pg.tokens_of() == tokens_view(tokens@)
                &&& pg.skip_rules_of() == texts_view(skip_rules@)
                &&& pg.semantic_actions_of() == semantic_actions@
            },
    {
        match Grammar::try_from(specification) {
            Ok(grammar) => Ok(
                ParserGenerator { grammar, preamble: preamble.to_string(), tokens, skip_rules, semantic_actions },
            ),
            Err(e) => Err(e),
        }
    }

    /// The parser of the specification.
    pub fn grammar(&self) -> (r: &Grammar)
        ensures
            *r == self.grammar_of(),
    {
        &self.grammar
    }

    /// The code of the generated parser: the preamble, the enumeration of
    /// the symbols and the implementation of the parser.
    pub fn parser_code(&self) -> (r: String)
        requires
            self.wf(),
        ensures
            exists|las: Seq<Seq<TokenView>>, reds: Seq<Seq<(Seq<u32>, Seq<TokenView>)>>|
                las.len() == self.grammar_of().states().len()
                && (forall|i: int| 0 <= i < las.len() ==> is_look_ahead_of(self.grammar_of().states()[i], #[trigger] las[i]))
                && reductions_of_states(self.grammar_of().states(), reds)
                && r@ == self.preamble_of() + "\n"@ + symbol_enum_text(
                    self.grammar_of().spec_of().names(),
                    self.tokens_of(),
                    self.skip_rules_of(),
                ) + #[trigger] parser_implementation_text(
                    self.grammar_of().spec_of().names(),
                    self.grammar_of().spec_of().prods(),
                    self.grammar_of().states(),
                    self.tokens_of(),
                    las,
                    reds,
                    self.grammar_of().spec_of().attribute_type_text(),
                    self.grammar_of().spec_of().target_type_text(),
                    self.semantic_actions_of(),
                ),
    {
        let r = self.grammar.write_parser_code(self.preamble.as_str(), &self.tokens, &self.skip_rules, self.semantic_actions.as_str());
        proof {
            let g = self.grammar;
            let (las, reds) = choose|las: Seq<Seq<TokenView>>, reds: Seq<Seq<(Seq<u32>, Seq<TokenView>)>>|
                las.len() == g.states().len()
                && (forall|i: int| 0 <= i < las.len() ==> is_look_ahead_of(g.states()[i], #[trigger] las[i]))
                && reductions_of_states(g.states(), reds)
                && r@ == self.preamble@ + "\n"@ + symbol_enum_text(g.spec_of().names(), tokens_view(self.tokens@), texts_view(self.skip_rules@))
                    + #[trigger] parser_implementation_text(
                    g.spec_of().names(),
                    g.spec_of().prods(),
                    g.states(),
                    tokens_view(self.tokens@),
                    las,
                    reds,
                    g.spec_of().attribute_type_text(),
                    g.spec_of().target_type_text(),
                    self.semantic_actions@,
                );
            assert(r@ == self.preamble_of() + "\n"@ + symbol_enum_text(g.spec_of().names(), self.tokens_of(), self.skip_rules_of())
                + parser_implementation_text(
                g.spec_of().names(),
                g.spec_of().prods(),
                g.states(),
                self.tokens_of(),
                las,
                reds,
                g.spec_of().attribute_type_text(),
                g.spec_of().target_type_text(),
                self.semantic_actions_of(),
            ));
        }
        r
    }
}

} // verus!
