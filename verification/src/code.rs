//! The Rust code that a parser's tables are written as.

use vstd::prelude::*;
use vstd::string::StringExecFns;

use crate::description::{
    production_text, token_name_str, token_name_text, token_names_joined, token_names_joined_by, token_symbol_str,
    token_symbol_text,
};
use crate::grammar::{state_describable, states_view, Grammar, Specification};
use crate::description::is_look_ahead_of;
use crate::production::{expanded_predicate_text, ProductionView};
use crate::reductions::{groups_exact, reducers, reductions_view, Reductions};
use crate::state::{error_recovery_look_ahead_has, reducible_look_ahead_has, shifts_view, GrammarItemKey, ParserState, ParserStateView};
use crate::terminal::{has_token, token_data, Token, TokenSet, TokenView};
use crate::text::{decimal, decimal_string, decimal_u32, join_numbers, numbers_joined};

verus! {

/// The lines of the next action code that shift tokens.
pub open spec fn shift_code_lines(indent: Seq<char>, shifts: Seq<(TokenView, u32)>) -> Seq<char>
    decreases shifts.len(),
{
    if shifts.len() == 0 {
        Seq::empty()
    } else {
        shift_code_lines(indent, shifts.drop_last()) + indent + "    "@ + token_name_text(shifts.last().0) + " => Action::Shift("@
            + decimal(shifts.last().1 as nat) + "),\n"@
    }
}

/// The action that reducing by production `ident` is: accepting for the
/// start production.
pub open spec fn reduce_action_text(ident: u32) -> Seq<char> {
    if ident == 0 {
        "Action::Accept"@
    } else {
        "Action::Reduce("@ + decimal(ident as nat) + ")"@
    }
}

/// The condition under which production `p` may be reduced, as code.
pub open spec fn predicate_code(p: ProductionView) -> Seq<char> {
    match p.predicate {
        Some(t) => expanded_predicate_text(t, p.right_hand_side.len()),
        None => Seq::empty(),
    }
}

/// The branches that choose between the productions `ids` by their predicates.
pub open spec fn branch_code(names: Seq<Seq<char>>, prods: Seq<ProductionView>, indent: Seq<char>, ids: Seq<u32>) -> Seq<char>
    decreases ids.len(),
{
    if ids.len() == 0 {
        Seq::empty()
    } else {
        let i = ids.len() - 1;
        let p = prods[ids[i] as int];
        branch_code(names, prods, indent, ids.drop_last()) + (if i == 0 {
            indent + "        if "@ + predicate_code(p) + " {\n"@
        } else if p.predicate is Some {
            indent + "        } else if "@ + predicate_code(p) + " {\n"@
        } else {
            indent + "        } else {\n"@
        }) + indent + "            // "@ + production_text(names, p) + "\n"@ + indent + "            "@ + reduce_action_text(ids[i])
            + "\n"@
    }
}

/// The lines of the next action code that reduce by the productions `ids`
/// on the tokens of `la`.
pub open spec fn group_code(
    names: Seq<Seq<char>>,
    prods: Seq<ProductionView>,
    indent: Seq<char>,
    ids: Seq<u32>,
    la: Seq<TokenView>,
) -> Seq<char> {
    if ids.len() == 1 {
        indent + "    // "@ + production_text(names, prods[ids[0] as int]) + "\n"@ + indent + "    "@ + token_names_joined(la, " | "@)
            + " => "@ + reduce_action_text(ids[0]) + ",\n"@
    } else {
        indent + "    "@ + token_names_joined(la, " | "@) + " => {\n"@ + branch_code(names, prods, indent, ids) + indent
            + "        }\n"@ + indent + "    }\n"@
    }
}

/// The lines of the next action code for each group of reductions.
pub open spec fn groups_code(
    names: Seq<Seq<char>>,
    prods: Seq<ProductionView>,
    indent: Seq<char>,
    red: Seq<(Seq<u32>, Seq<TokenView>)>,
) -> Seq<char>
    decreases red.len(),
{
    if red.len() == 0 {
        Seq::empty()
    } else {
        groups_code(names, prods, indent, red.drop_last()) + group_code(names, prods, indent, red.last().0, red.last().1)
    }
}

/// The arm of the next action function for state `st`, whose reductions
/// are `red`.
pub open spec fn next_action_text(
    names: Seq<Seq<char>>,
    prods: Seq<ProductionView>,
    st: ParserStateView,
    red: Seq<(Seq<u32>, Seq<TokenView>)>,
    indent: Seq<char>,
) -> Seq<char> {
    indent + decimal(st.ident as nat) + " => match aa_tag {\n"@ + shift_code_lines(indent, st.shifts) + groups_code(
        names,
        prods,
        indent,
        red,
    ) + indent + "    _ => Action::SyntaxError,\n"@ + indent + "},\n"@
}

/// The productions that reduce on a token are productions of the state's items.
pub proof fn lemma_reducers_below(items: Seq<(GrammarItemKey, Seq<TokenView>)>, t: TokenView, n: nat)
    requires
        forall|j: int| 0 <= j < items.len() ==> (#[trigger] items[j]).0.production < n,
    ensures
        forall|k: int| 0 <= k < reducers(items, t).len() ==> #[trigger] reducers(items, t)[k] < n,
    decreases items.len(),
{
    if items.len() > 0 {
        assert forall|j: int| 0 <= j < items.drop_last().len() implies (#[trigger] items.drop_last()[j]).0.production < n by {
            assert(items.drop_last()[j] == items[j]);
        }
        lemma_reducers_below(items.drop_last(), t, n);
        assert(items.last() == items[items.len() - 1]);
        let rest = reducers(items.drop_last(), t);
        assert forall|k: int| 0 <= k < reducers(items, t).len() implies #[trigger] reducers(items, t)[k] < n by {
            if k < rest.len() {
                assert(reducers(items, t)[k] == rest[k]);
            }
        }
    }
}

/// The action that reducing by production `ident` is.
fn reduce_action_string(ident: u32) -> (r: String)
    ensures
        r@ == reduce_action_text(ident),
{
    proof {
        reveal_strlit("Action::Accept");
        reveal_strlit("Action::Reduce(");
        reveal_strlit(")");
    }
    if ident == 0 {
        String::from_str("Action::Accept")
    } else {
        let mut r = String::from_str("Action::Reduce(");
        r.append(decimal_u32(ident).as_str());
        r.append(")");
        r
    }
}

impl Specification {
    /// The condition under which production `p` may be reduced, as code.
    fn predicate_code_of(&self, p: usize) -> (r: String)
        requires
            self.prods_wf(),
            p < self.prods().len(),
        ensures
            r@ == predicate_code(self.prods()[p as int]),
    {
        proof {
            self.lemma_prods_wf();
        }
        match self.production(p).expanded_predicate() {
            Some(t) => t,
            None => String::new(),
        }
    }

    /// The branches that choose between the productions `ids`.
    fn branch_code_of(&self, indent: &str, ids: &Vec<u32>) -> (r: String)
        requires
            self.prods_wf(),
            forall|k: int| 0 <= k < ids@.len() ==> #[trigger] ids@[k] < self.prods().len(),
        ensures
            r@ == branch_code(self.names(), self.prods(), indent@, ids@),
    {
        proof {
            reveal_strlit("        if ");
            reveal_strlit(" {\n");
            reveal_strlit("        } else if ");
            reveal_strlit("        } else {\n");
            reveal_strlit("            // ");
            reveal_strlit("\n");
            reveal_strlit("            ");
        }
        let mut r = String::new();
        let mut i: usize = 0;
        proof {
            assert(ids@.take(0) =~= Seq::<u32>::empty());
        }
        while i < ids.len()
            invariant
                self.prods_wf(),
                i <= ids@.len(),
                forall|k: int| 0 <= k < ids@.len() ==> #[trigger] ids@[k] < self.prods().len(),
                r@ == branch_code(self.names(), self.prods(), indent@, ids@.take(i as int)),
            decreases ids@.len() - i,
        {
            proof {
                assert(ids@.take(i + 1).drop_last() =~= ids@.take(i as int));
                assert(ids@.take(i + 1)[i as int] == ids@[i as int]);
                assert(ids@[i as int] < self.prods().len());
            }
            let p = ids[i] as usize;
            let head = if i == 0 {
                let mut h = String::from_str(indent);
                h.append("        if ");
                h.append(self.predicate_code_of(p).as_str());
                h.append(" {\n");
                h
            } else if self.production(p).predicate.is_some() {
                let mut h = String::from_str(indent);
                h.append("        } else if ");
                h.append(self.predicate_code_of(p).as_str());
                h.append(" {\n");
                h
            } else {
                let mut h = String::from_str(indent);
                h.append("        } else {\n");
                h
            };
            r.append(head.as_str());
            r.append(indent);
            r.append("            // ");
            r.append(self.production_text(p).as_str());
            r.append("\n");
            r.append(indent);
            r.append("            ");
            r.append(reduce_action_string(ids[i]).as_str());
            r.append("\n");
            proof {
                assert(r@ =~= branch_code(self.names(), self.prods(), indent@, ids@.take(i + 1)));
            }
            i = i + 1;
        }
        proof {
            assert(ids@.take(i as int) =~= ids@);
        }
        r
    }

    /// The lines that reduce by the productions `ids` on the tokens of `la`.
    fn group_code_of(&self, indent: &str, ids: &Vec<u32>, la: &TokenSet) -> (r: String)
        requires
            self.prods_wf(),
            ids@.len() >= 1,
            forall|k: int| 0 <= k < ids@.len() ==> #[trigger] ids@[k] < self.prods().len(),
        ensures
            r@ == group_code(self.names(), self.prods(), indent@, ids@, la@),
    {
        proof {
            reveal_strlit("    // ");
            reveal_strlit("\n");
            reveal_strlit("    ");
            reveal_strlit(" | ");
            reveal_strlit(" => ");
            reveal_strlit(",\n");
            reveal_strlit(" => {\n");
            reveal_strlit("        }\n");
            reveal_strlit("    }\n");
        }
        let mut r = String::from_str(indent);
        if ids.len() == 1 {
            proof {
                assert(ids@[0] < self.prods().len());
            }
            r.append("    // ");
            r.append(self.production_text(ids[0] as usize).as_str());
            r.append("\n");
            r.append(indent);
            r.append("    ");
            r.append(token_names_joined_by(la, " | ").as_str());
            r.append(" => ");
            r.append(reduce_action_string(ids[0]).as_str());
            r.append(",\n");
        } else {
            r.append("    ");
            r.append(token_names_joined_by(la, " | ").as_str());
            r.append(" => {\n");
            r.append(self.branch_code_of(indent, ids).as_str());
            r.append(indent);
            r.append("        }\n");
            r.append(indent);
            r.append("    }\n");
        }
        r
    }
}

impl ParserState {
    /// The lines that shift tokens.
    fn shift_code(&self, indent: &str) -> (r: String)
        ensures
            r@ == shift_code_lines(indent@, self@.shifts),
    {
        proof {
            reveal_strlit("    ");
            reveal_strlit(" => Action::Shift(");
            reveal_strlit("),\n");
        }
        let shifts = self.shift_list();
        let ghost v = self@.shifts;
        let mut r = String::new();
        let mut i: usize = 0;
        proof {
            assert(v.take(0) =~= Seq::<(TokenView, u32)>::empty());
        }
        while i < shifts.len()
            invariant
                v == self@.shifts,
                shifts_view(shifts@) == v,
                i <= shifts@.len(),
                r@ == shift_code_lines(indent@, v.take(i as int)),
            decreases shifts@.len() - i,
        {
            proof {
                assert(v[i as int] == (shifts@[i as int].0@, shifts@[i as int].1));
                assert(v.take(i + 1).drop_last() =~= v.take(i as int));
                assert(v.take(i + 1).last() == v[i as int]);
            }
            r.append(indent);
            r.append("    ");
            r.append(token_name_str(&shifts[i].0));
            r.append(" => Action::Shift(");
            r.append(decimal_u32(shifts[i].1).as_str());
            r.append("),\n");
            i = i + 1;
        }
        proof {
            assert(v.take(i as int) =~= v);
        }
        r
    }

    /// The arm of the generated `next_action` function for this state: the
    /// tokens it shifts, then its reductions grouped by the productions that
    /// reduce (a single production directly, several chosen between by their
    /// predicates), and a syntax error on any other token.
    #[verifier::rlimit(30)]
    pub fn write_next_action_code(&self, specification: &Specification, indent: &str) -> (r: String)
        requires
            self.wf(),
            specification.prods_wf(),
            forall|j: int| 0 <= j < self@.items.len() ==> (#[trigger] self@.items[j]).0.production < specification.prods().len(),
        ensures
            exists|red: Seq<(Seq<u32>, Seq<TokenView>)>, ex: Seq<TokenView>|
                (forall|t: TokenView| #[trigger] has_token(ex, t) <==> reducible_look_ahead_has(self@, t)) && #[trigger] groups_exact(
                    self@,
                    red,
                    ex,
                ) && r@ == next_action_text(specification.names(), specification.prods(), self@, red, indent@),
    {
        proof {
            reveal_strlit(" => match aa_tag {\n");
            reveal_strlit("    _ => Action::SyntaxError,\n");
            reveal_strlit("},\n");
        }
        let reductions: Reductions = self.reductions();
        let ghost red = reductions_view(reductions.reductions@);
        let ghost n = specification.prods().len();
        let mut groups = String::new();
        let mut k: usize = 0;
        proof {
            assert(red.take(0) =~= Seq::<(Seq<u32>, Seq<TokenView>)>::empty());
        }
        while k < reductions.reductions.len()
            invariant
                self.wf(),
                specification.prods_wf(),
                n == specification.prods().len(),
                forall|j: int| 0 <= j < self@.items.len() ==> (#[trigger] self@.items[j]).0.production < n,
                red == reductions_view(reductions.reductions@),
                groups_exact(self@, red, reductions.expected_tokens@),
                forall|t: TokenView| #[trigger] has_token(reductions.expected_tokens@, t) <==> reducible_look_ahead_has(self@, t),
                k <= reductions.reductions@.len(),
                groups@ == groups_code(specification.names(), specification.prods(), indent@, red.take(k as int)),
            decreases reductions.reductions@.len() - k,
        {
            let ghost group = red[k as int];
            proof {
                assert(group == (reductions.reductions@[k as int].0@, reductions.reductions@[k as int].1@));
                assert(red.take(k + 1).drop_last() =~= red.take(k as int));
                assert(red.take(k + 1).last() == group);
                // the group's list is that of its first token
                let t = group.1[0];
                assert(has_token(group.1, t)) by {
                    assert(crate::terminal::same_token(t, t));
                }
                assert(has_token(reductions.expected_tokens@, t) && reducers(self@.items, t) == group.0);
                assert(reducible_look_ahead_has(self@, t));
                crate::reductions::lemma_reducers_nonempty(self@.items, t);
                lemma_reducers_below(self@.items, t, n);
            }
            let ids = &reductions.reductions[k].0;
            groups.append(specification.group_code_of(indent, ids, &reductions.reductions[k].1).as_str());
            k = k + 1;
        }
        proof {
            assert(red.take(k as int) =~= red);
        }
        let mut r = String::from_str(indent);
        r.append(decimal_u32(self.ident()).as_str());
        r.append(" => match aa_tag {\n");
        r.append(self.shift_code(indent).as_str());
        r.append(groups.as_str());
        r.append(indent);
        r.append("    _ => Action::SyntaxError,\n");
        r.append(indent);
        r.append("},\n");
        proof {
            assert(r@ == next_action_text(specification.names(), specification.prods(), self@, red, indent@));
        }
        r
    }
}

/// The lines of the goto table for one state.
pub open spec fn goto_code_lines(names: Seq<Seq<char>>, indent: Seq<char>, gotos: Seq<(u32, u32)>) -> Seq<char>
    decreases gotos.len(),
{
    if gotos.len() == 0 {
        Seq::empty()
    } else {
        goto_code_lines(names, indent, gotos.drop_last()) + indent + "    AANonTerminal::"@ + names[gotos.last().0 as int] + " => "@
            + decimal(gotos.last().1 as nat) + ",\n"@
    }
}

/// The arm of the generated `goto_state` function for state `st`; nothing
/// for a state without gotos.
pub open spec fn goto_table_text(names: Seq<Seq<char>>, st: ParserStateView, indent: Seq<char>) -> Seq<char> {
    if st.gotos.len() == 0 {
        Seq::empty()
    } else {
        indent + decimal(st.ident as nat) + " => match lhs {\n"@ + goto_code_lines(names, indent, st.gotos) + indent
            + "    _ => panic!(\"Malformed goto table: ({}, {})\", lhs, current_state),\n"@ + indent + "},\n"@
    }
}

impl ParserState {
    /// The arm of the generated `goto_state` function for this state.
    pub fn write_goto_table_code(&self, specification: &Specification, indent: &str) -> (r: String)
        requires
            specification.prods_wf(),
            forall|k: int| 0 <= k < self@.gotos.len() ==> (#[trigger] self@.gotos[k]).0 < specification.non_terminals(),
        ensures
            r@ == goto_table_text(specification.names(), self@, indent@),
    {
        proof {
            reveal_strlit(" => match lhs {\n");
            reveal_strlit("    AANonTerminal::");
            reveal_strlit(" => ");
            reveal_strlit(",\n");
            reveal_strlit("    _ => panic!(\"Malformed goto table: ({}, {})\", lhs, current_state),\n");
            reveal_strlit("},\n");
        }
        let gotos = self.goto_table();
        if gotos.len() == 0 {
            return String::new();
        }
        let ghost v = self@.gotos;
        let mut lines = String::new();
        let mut i: usize = 0;
        proof {
            assert(v.take(0) =~= Seq::<(u32, u32)>::empty());
        }
        while i < gotos.len()
            invariant
                specification.prods_wf(),
                v == self@.gotos,
                gotos@ == v,
                i <= gotos@.len(),
                forall|k: int| 0 <= k < v.len() ==> (#[trigger] v[k]).0 < specification.non_terminals(),
                lines@ == goto_code_lines(specification.names(), indent@, v.take(i as int)),
            decreases gotos@.len() - i,
        {
            proof {
                assert(v.take(i + 1).drop_last() =~= v.take(i as int));
                assert(v.take(i + 1).last() == v[i as int]);
            }
            lines.append(indent);
            lines.append("    AANonTerminal::");
            lines.append(specification.non_terminal_name(gotos[i].0));
            lines.append(" => ");
            lines.append(decimal_u32(gotos[i].1).as_str());
            lines.append(",\n");
            i = i + 1;
        }
        proof {
            assert(v.take(i as int) =~= v);
        }
        let mut r = String::from_str(indent);
        r.append(decimal_u32(self.ident()).as_str());
        r.append(" => match lhs {\n");
        r.append(lines.as_str());
        r.append(indent);
        r.append("    _ => panic!(\"Malformed goto table: ({}, {})\", lhs, current_state),\n");
        r.append(indent);
        r.append("},\n");
        r
    }
}

/// The lines of the generated `production_data` function for the productions `ps`.
pub open spec fn production_data_lines(names: Seq<Seq<char>>, ps: Seq<ProductionView>) -> Seq<char>
    decreases ps.len(),
{
    if ps.len() == 0 {
        Seq::empty()
    } else {
        let p = ps.last();
        production_data_lines(names, ps.drop_last()) + "            "@ + decimal(p.ident as nat) + " => (AANonTerminal::"@
            + names[p.left_hand_side as int] + ", "@ + decimal(p.right_hand_side.len()) + "),\n"@
    }
}

/// The generated `production_data` function.
pub open spec fn production_data_text(names: Seq<Seq<char>>, ps: Seq<ProductionView>) -> Seq<char> {
    "    fn production_data(production_id: u32) -> (AANonTerminal, usize) {\n        match production_id {\n"@
        + production_data_lines(names, ps)
        + "            _ => panic!(\"malformed production data table\"),\n        }\n    }\n\n"@
}

impl Specification {
    /// The generated `production_data` function: the left hand side and
    /// length of each production.
    pub fn write_production_data_code(&self) -> (r: String)
        requires
            self.prods_wf(),
        ensures
            r@ == production_data_text(self.names(), self.prods()),
    {
        proof {
            reveal_strlit("    fn production_data(production_id: u32) -> (AANonTerminal, usize) {\n        match production_id {\n");
            reveal_strlit("            ");
            reveal_strlit(" => (AANonTerminal::");
            reveal_strlit(", ");
            reveal_strlit("),\n");
            reveal_strlit("            _ => panic!(\"malformed production data table\"),\n        }\n    }\n\n");
            self.lemma_prods_wf();
        }
        let ghost ps = self.prods();
        let mut lines = String::new();
        let n = self.productions_len();
        let mut i: usize = 0;
        proof {
            assert(ps.take(0) =~= Seq::<ProductionView>::empty());
        }
        while i < n
            invariant
                self.prods_wf(),
                ps == self.prods(),
                n == ps.len(),
                i <= n,
                crate::firsts::productions_below(ps, self.non_terminals()),
                lines@ == production_data_lines(self.names(), ps.take(i as int)),
            decreases n - i,
        {
            proof {
                assert(ps.take(i + 1).drop_last() =~= ps.take(i as int));
                assert(ps.take(i + 1).last() == ps[i as int]);
            }
            let production = self.production(i);
            lines.append("            ");
            lines.append(decimal_u32(production.ident).as_str());
            lines.append(" => (AANonTerminal::");
            lines.append(self.non_terminal_name(production.left_hand_side));
            lines.append(", ");
            lines.append(decimal_string(production.len()).as_str());
            lines.append("),\n");
            i = i + 1;
        }
        proof {
            assert(ps.take(i as int) =~= ps);
        }
        let mut r = String::from_str("    fn production_data(production_id: u32) -> (AANonTerminal, usize) {\n        match production_id {\n");
        r.append(lines.as_str());
        r.append("            _ => panic!(\"malformed production data table\"),\n        }\n    }\n\n");
        r
    }
}

/// The arms of the generated `goto_state` function for the states `sv`.
pub open spec fn states_goto_lines(names: Seq<Seq<char>>, sv: Seq<ParserStateView>) -> Seq<char>
    decreases sv.len(),
{
    if sv.len() == 0 {
        Seq::empty()
    } else {
        states_goto_lines(names, sv.drop_last()) + goto_table_text(names, sv.last(), "            "@)
    }
}

/// The generated `goto_state` function.
pub open spec fn goto_state_fn_text(names: Seq<Seq<char>>, sv: Seq<ParserStateView>) -> Seq<char> {
    "    fn goto_state(lhs: &AANonTerminal, current_state: u32) -> u32 {\n        return match current_state {\n"@
        + states_goto_lines(names, sv)
        + "            _ => panic!(\"Malformed goto table: ({}, {})\", lhs, current_state),\n        }\n    }\n\n"@
}

/// The arms of the generated `look_ahead_set` function for the states
/// `sv`, whose look ahead sets are `las`.
pub open spec fn look_ahead_lines(sv: Seq<ParserStateView>, las: Seq<Seq<TokenView>>) -> Seq<char>
    decreases sv.len(),
{
    if sv.len() == 0 || las.len() == 0 {
        Seq::empty()
    } else {
        look_ahead_lines(sv.drop_last(), las.drop_last()) + "            "@ + decimal(sv.last().ident as nat) + " => vec!["@
            + token_names_joined(las.last(), ", "@) + "].into(),\n"@
    }
}

/// The generated `look_ahead_set` function.
pub open spec fn look_ahead_fn_text(sv: Seq<ParserStateView>, las: Seq<Seq<TokenView>>) -> Seq<char> {
    "    fn look_ahead_set(state: u32) -> OrderedSet<AATerminal> {\n        use AATerminal::*;\n        return match state {\n"@
        + look_ahead_lines(sv, las) + "            _ => panic!(\"illegal state: {}\", state),\n        }\n    }\n\n"@
}

/// The arms of the generated `next_action` function for the states `sv`,
/// whose reductions are `reds`.
pub open spec fn next_action_lines(
    names: Seq<Seq<char>>,
    prods: Seq<ProductionView>,
    sv: Seq<ParserStateView>,
    reds: Seq<Seq<(Seq<u32>, Seq<TokenView>)>>,
) -> Seq<char>
    decreases sv.len(),
{
    if sv.len() == 0 || reds.len() == 0 {
        Seq::empty()
    } else {
        next_action_lines(names, prods, sv.drop_last(), reds.drop_last()) + next_action_text(
            names,
            prods,
            sv.last(),
            reds.last(),
            "            "@,
        )
    }
}

/// The generated `next_action` function, for attributes of type `attr`.
pub open spec fn next_action_fn_text(
    names: Seq<Seq<char>>,
    prods: Seq<ProductionView>,
    sv: Seq<ParserStateView>,
    reds: Seq<Seq<(Seq<u32>, Seq<TokenView>)>>,
    attr: Seq<char>,
) -> Seq<char> {
    "    fn next_action(\n        &self,\n        aa_state: u32,\n        aa_attributes: &lalr1plus::ParseStack<AATerminal, AANonTerminal, "@
        + attr
        + ">,\n        aa_token: &lexan::Token<AATerminal>,\n    ) -> lalr1plus::Action {\n        use lalr1plus::Action;\n        use AATerminal::*;\n        let aa_tag = *aa_token.tag();\n        return match aa_state {\n"@
        + next_action_lines(names, prods, sv, reds) + "            _ => panic!(\"illegal state: {}\", aa_state),\n        }\n    }\n\n"@
}

/// `red` are the reductions of state `st`, group by group.
pub open spec fn are_reductions_of(st: ParserStateView, red: Seq<(Seq<u32>, Seq<TokenView>)>) -> bool {
    exists|ex: Seq<TokenView>|
        (forall|t: TokenView| #[trigger] has_token(ex, t) <==> reducible_look_ahead_has(st, t)) && #[trigger] groups_exact(st, red, ex)
}

/// `reds` are the reductions of the states `sv`, state by state.
pub open spec fn reductions_of_states(sv: Seq<ParserStateView>, reds: Seq<Seq<(Seq<u32>, Seq<TokenView>)>>) -> bool {
    &&& reds.len() == sv.len()
    &&& forall|i: int| 0 <= i < sv.len() ==> #[trigger] are_reductions_of(sv[i], reds[i])
}

impl Grammar {
    /// The generated `goto_state` function.
    pub fn write_goto_table_code(&self) -> (r: String)
        requires
            self.wf(),
        ensures
            r@ == goto_state_fn_text(self.spec_of().names(), self.states()),
    {
        proof {
            reveal_strlit("    fn goto_state(lhs: &AANonTerminal, current_state: u32) -> u32 {\n        return match current_state {\n");
            reveal_strlit("            ");
            reveal_strlit("            _ => panic!(\"Malformed goto table: ({}, {})\", lhs, current_state),\n        }\n    }\n\n");
            self.lemma_wf();
        }
        let specification = self.specification();
        let states = self.parser_states();
        let ghost sv = self.states();
        let mut lines = String::new();
        let mut i: usize = 0;
        proof {
            assert(sv.take(0) =~= Seq::<ParserStateView>::empty());
        }
        while i < states.len()
            invariant
                self.wf(),
                *specification == self.spec_of(),
                specification.wf(),
                specification.prods_wf(),
                states@ == self.parser_states_seq(),
                sv == self.states(),
                states_view(states@) == sv,
                i <= states@.len(),
                forall|t: int| 0 <= t < states@.len() ==> state_describable(specification.prods(), specification.non_terminals(),
                    (#[trigger] states@[t])@, states@.len()),
                lines@ == states_goto_lines(specification.names(), sv.take(i as int)),
            decreases states@.len() - i,
        {
            proof {
                assert(sv[i as int] == states@[i as int]@);
                assert(sv.take(i + 1).drop_last() =~= sv.take(i as int));
                assert(sv.take(i + 1).last() == sv[i as int]);
                assert(state_describable(specification.prods(), specification.non_terminals(), states@[i as int]@, states@.len()));
            }
            lines.append(states[i].write_goto_table_code(specification, "            ").as_str());
            i = i + 1;
        }
        proof {
            assert(sv.take(i as int) =~= sv);
        }
        let mut r = String::from_str("    fn goto_state(lhs: &AANonTerminal, current_state: u32) -> u32 {\n        return match current_state {\n");
        r.append(lines.as_str());
        r.append("            _ => panic!(\"Malformed goto table: ({}, {})\", lhs, current_state),\n        }\n    }\n\n");
        r
    }

    /// The generated `look_ahead_set` function: the tokens each state shifts
    /// or reduces on.
    pub fn write_look_ahead_set_code(&self) -> (r: String)
        requires
            self.wf(),
        ensures
            exists|las: Seq<Seq<TokenView>>|
                las.len() == self.states().len() && (forall|i: int| 0 <= i < las.len() ==> is_look_ahead_of(
                    self.states()[i],
                    #[trigger] las[i],
                )) && r@ == #[trigger] look_ahead_fn_text(self.states(), las),
    {
        proof {
            reveal_strlit("    fn look_ahead_set(state: u32) -> OrderedSet<AATerminal> {\n        use AATerminal::*;\n        return match state {\n");
            reveal_strlit("            ");
            reveal_strlit(" => vec![");
            reveal_strlit(", ");
            reveal_strlit("].into(),\n");
            reveal_strlit("            _ => panic!(\"illegal state: {}\", state),\n        }\n    }\n\n");
            self.lemma_wf();
        }
        let states = self.parser_states();
        let ghost sv = self.states();
        let ghost mut las: Seq<Seq<TokenView>> = Seq::empty();
        let mut lines = String::new();
        let mut i: usize = 0;
        proof {
            assert(sv.take(0) =~= Seq::<ParserStateView>::empty());
        }
        while i < states.len()
            invariant
                self.wf(),
                states@ == self.parser_states_seq(),
                sv == self.states(),
                states_view(states@) == sv,
                i <= states@.len(),
                forall|t: int| 0 <= t < states@.len() ==> (#[trigger] states@[t]).wf(),
                las.len() == i,
                forall|k: int| 0 <= k < i ==> is_look_ahead_of(sv[k], #[trigger] las[k]),
                lines@ == look_ahead_lines(sv.take(i as int), las),
            decreases states@.len() - i,
        {
            proof {
                assert(sv[i as int] == states@[i as int]@);
                assert(sv.take(i + 1).drop_last() =~= sv.take(i as int));
                assert(sv.take(i + 1).last() == sv[i as int]);
                assert(states@[i as int].wf());
            }
            let la = states[i].look_ahead_set();
            lines.append("            ");
            lines.append(decimal_u32(states[i].ident()).as_str());
            lines.append(" => vec![");
            lines.append(token_names_joined_by(&la, ", ").as_str());
            lines.append("].into(),\n");
            proof {
                let las2 = las.push(la@);
                assert(las2.drop_last() =~= las);
                assert(is_look_ahead_of(sv[i as int], la@));
                assert forall|k: int| 0 <= k < i + 1 implies is_look_ahead_of(sv[k], #[trigger] las2[k]) by {
                    if k < i {
                        assert(las2[k] == las[k]);
                    }
                }
                las = las2;
            }
            i = i + 1;
        }
        proof {
            assert(sv.take(i as int) =~= sv);
        }
        let mut r = String::from_str("    fn look_ahead_set(state: u32) -> OrderedSet<AATerminal> {\n        use AATerminal::*;\n        return match state {\n");
        r.append(lines.as_str());
        r.append("            _ => panic!(\"illegal state: {}\", state),\n        }\n    }\n\n");
        proof {
            assert(r@ == look_ahead_fn_text(sv, las));
        }
        r
    }

    /// The generated `next_action` function: the arm of each state.
    #[verifier::rlimit(30)]
    pub fn write_next_action_code(&self) -> (r: String)
        requires
            self.wf(),
        ensures
            exists|reds: Seq<Seq<(Seq<u32>, Seq<TokenView>)>>|
                #[trigger] reductions_of_states(self.states(), reds) && r@ == next_action_fn_text(
                    self.spec_of().names(),
                    self.spec_of().prods(),
                    self.states(),
                    reds,
                    self.spec_of().attribute_type_text(),
                ),
    {
        proof {
            reveal_strlit("    fn next_action(\n        &self,\n        aa_state: u32,\n        aa_attributes: &lalr1plus::ParseStack<AATerminal, AANonTerminal, ");
            reveal_strlit(">,\n        aa_token: &lexan::Token<AATerminal>,\n    ) -> lalr1plus::Action {\n        use lalr1plus::Action;\n        use AATerminal::*;\n        let aa_tag = *aa_token.tag();\n        return match aa_state {\n");
            reveal_strlit("            ");
            reveal_strlit("            _ => panic!(\"illegal state: {}\", aa_state),\n        }\n    }\n\n");
            self.lemma_wf();
        }
        let specification = self.specification();
        let states = self.parser_states();
        let ghost sv = self.states();
        let ghost mut reds: Seq<Seq<(Seq<u32>, Seq<TokenView>)>> = Seq::empty();
        let mut lines = String::new();
        let mut i: usize = 0;
        proof {
            assert(sv.take(0) =~= Seq::<ParserStateView>::empty());
        }
        while i < states.len()
            invariant
                self.wf(),
                *specification == self.spec_of(),
                specification.wf(),
                specification.prods_wf(),
                states@ == self.parser_states_seq(),
                sv == self.states(),
                states_view(states@) == sv,
                i <= states@.len(),
                forall|t: int| 0 <= t < states@.len() ==> (#[trigger] states@[t]).wf() && state_describable(
                    specification.prods(),
                    specification.non_terminals(),
                    states@[t]@,
                    states@.len(),
                ),
                reds.len() == i,
                reductions_of_states(sv.take(i as int), reds),
                lines@ == next_action_lines(specification.names(), specification.prods(), sv.take(i as int), reds),
            decreases states@.len() - i,
        {
            proof {
                assert(sv[i as int] == states@[i as int]@);
                assert(sv.take(i + 1).drop_last() =~= sv.take(i as int));
                assert(sv.take(i + 1).last() == sv[i as int]);
                assert(states@[i as int].wf());
                assert(state_describable(specification.prods(), specification.non_terminals(), states@[i as int]@, states@.len()));
            }
            let code = states[i].write_next_action_code(specification, "            ");
            lines.append(code.as_str());
            proof {
                let (red, ex) = choose|red: Seq<(Seq<u32>, Seq<TokenView>)>, ex: Seq<TokenView>|
                    (forall|t: TokenView| #[trigger] has_token(ex, t) <==> reducible_look_ahead_has(states@[i as int]@, t))
                        && #[trigger] groups_exact(states@[i as int]@, red, ex) && code@ == next_action_text(
                        specification.names(),
                        specification.prods(),
                        states@[i as int]@,
                        red,
                        "            "@,
                    );
                let reds2 = reds.push(red);
                assert(reds2.drop_last() =~= reds);
                let sv2 = sv.take(i + 1);
                assert forall|k: int| 0 <= k < sv2.len() implies #[trigger] are_reductions_of(sv2[k], reds2[k]) by {
                    if k < i {
                        assert(sv2[k] == sv.take(i as int)[k]);
                        assert(reds2[k] == reds[k]);
                        assert(are_reductions_of(sv.take(i as int)[k], reds[k]));
                    } else {
                        assert(sv2[k] == states@[i as int]@);
                        assert(reds2[k] == red);
                        assert(groups_exact(sv2[k], reds2[k], ex));
                    }
                }
                reds = reds2;
            }
            i = i + 1;
        }
        proof {
            assert(sv.take(i as int) =~= sv);
        }
        let mut r = String::from_str("    fn next_action(\n        &self,\n        aa_state: u32,\n        aa_attributes: &lalr1plus::ParseStack<AATerminal, AANonTerminal, ");
        r.append(specification.attribute_type());
        r.append(">,\n        aa_token: &lexan::Token<AATerminal>,\n    ) -> lalr1plus::Action {\n        use lalr1plus::Action;\n        use AATerminal::*;\n        let aa_tag = *aa_token.tag();\n        return match aa_state {\n");
        r.append(lines.as_str());
        r.append("            _ => panic!(\"illegal state: {}\", aa_state),\n        }\n    }\n\n");
        proof {
            assert(reductions_of_states(sv, reds));
            assert(r@ == next_action_fn_text(specification.names(), specification.prods(), sv, reds, specification.attribute_type_text()));
        }
        r
    }
}

/// State `s` of `sv` recovers from errors into a state that reduces an
/// error recovery production on a token like `t`.
pub open spec fn is_recovery_state_for(sv: Seq<ParserStateView>, s: int, t: TokenView) -> bool {
    match sv[s].error_recovery_state {
        Some(e) => 0 <= e < sv.len() && error_recovery_look_ahead_has(sv[e as int], t),
        None => false,
    }
}

/// The states among the first `k` of `sv` that recover from errors on a token like `t`.
pub open spec fn recovery_states_for(sv: Seq<ParserStateView>, t: TokenView, k: int) -> Seq<u32>
    decreases k,
{
    if k <= 0 {
        Seq::empty()
    } else if is_recovery_state_for(sv, k - 1, t) {
        recovery_states_for(sv, t, k - 1).push(sv[k - 1].ident)
    } else {
        recovery_states_for(sv, t, k - 1)
    }
}

/// A list of numbers as code: `vec![1, 2]`.
pub open spec fn u32_vec_text(v: Seq<u32>) -> Seq<char> {
    "vec!["@ + numbers_joined(v, ", "@) + "]"@
}

/// A list of numbers as code: `vec![1, 2]`.
pub fn format_u32_vec(v: &Vec<u32>) -> (r: String)
    ensures
        r@ == u32_vec_text(v@),
{
    proof {
        reveal_strlit("vec![");
        reveal_strlit(", ");
        reveal_strlit("]");
    }
    let mut r = String::from_str("vec![");
    r.append(join_numbers(v, ", ").as_str());
    r.append("]");
    r
}

/// The arms of the generated `viable_error_recovery_states` function for
/// the tokens `tokens`: one for each token that some state recovers on.
pub open spec fn recovery_match_lines(sv: Seq<ParserStateView>, tokens: Seq<TokenView>) -> Seq<char>
    decreases tokens.len(),
{
    if tokens.len() == 0 {
        Seq::empty()
    } else {
        let t = tokens.last();
        let states = recovery_states_for(sv, t, sv.len() as int);
        recovery_match_lines(sv, tokens.drop_last()) + (if states.len() > 0 {
            "            AATerminal::"@ + token_name_text(t) + " => "@ + u32_vec_text(states) + ",\n"@
        } else {
            Seq::empty()
        })
    }
}

/// The arms of the generated `error_goto_state` function.
pub open spec fn error_goto_lines(sv: Seq<ParserStateView>) -> Seq<char>
    decreases sv.len(),
{
    if sv.len() == 0 {
        Seq::empty()
    } else {
        error_goto_lines(sv.drop_last()) + match sv.last().error_recovery_state {
            Some(e) => "            "@ + decimal(sv.last().ident as nat) + " => "@ + decimal(e as nat) + ",\n"@,
            None => Seq::empty(),
        }
    }
}

/// The generated `viable_error_recovery_states` and `error_goto_state`
/// functions for the states `sv` and the tokens `tokens`.
pub open spec fn error_recovery_text(sv: Seq<ParserStateView>, tokens: Seq<TokenView>) -> Seq<char> {
    "    fn viable_error_recovery_states(token: &AATerminal) -> Vec<u32> {\n        match token {\n"@
        + recovery_match_lines(sv, tokens) + (if exists|i: int| 0 <= i < tokens.len() && recovery_states_for(
        sv,
        #[trigger] tokens[i],
        sv.len() as int,
    ).len() == 0 {
        "            _ => vec![],\n"@
    } else {
        Seq::empty()
    }) + "        }\n    }\n\n"@ + "    fn error_goto_state(state: u32) -> u32 {\n        match state {\n"@ + error_goto_lines(sv)
        + "            _ => panic!(\"No error go to state for {}\", state),\n        }\n    }\n\n"@
}

impl Grammar {
    /// The states that recover from errors into a state that reduces an
    /// error recovery production on `token`.
    pub fn error_recovery_states_for_token(&self, token: &Token) -> (r: Vec<u32>)
        requires
            self.wf(),
        ensures
            r@ == recovery_states_for(self.states(), token@, self.states().len() as int),
    {
        proof {
            self.lemma_wf();
        }
        let states = self.parser_states();
        let ghost sv = self.states();
        let mut r: Vec<u32> = Vec::new();
        let mut s: usize = 0;
        while s < states.len()
            invariant
                self.wf(),
                states@ == self.parser_states_seq(),
                sv == self.states(),
                states_view(states@) == sv,
                s <= states@.len(),
                forall|t: int| 0 <= t < states@.len() ==> (#[trigger] states@[t]).wf() && state_describable(
                    self.spec_of().prods(),
                    self.spec_of().non_terminals(),
                    states@[t]@,
                    states@.len(),
                ),
                r@ == recovery_states_for(sv, token@, s as int),
            decreases states@.len() - s,
        {
            proof {
                assert(sv[s as int] == states@[s as int]@);
                assert(state_describable(self.spec_of().prods(), self.spec_of().non_terminals(), states@[s as int]@, states@.len()));
            }
            match states[s].error_recovery_state() {
                Some(e) => {
                    proof {
                        assert(sv[e as int] == states@[e as int]@);
                        assert(states@[e as int].wf());
                    }
                    if states[e as usize].error_recovery_look_ahead_set_contains(token) {
                        r.push(states[s].ident());
                    }
                },
                None => {},
            }
            s = s + 1;
        }
        r
    }

    /// The generated `viable_error_recovery_states` function, over the
    /// tokens `tokens` (the tokens of the specification in the order of
    /// their names), and the generated `error_goto_state` function.
    #[verifier::rlimit(30)]
    pub fn write_error_recovery_code(&self, tokens: &Vec<Token>) -> (r: String)
        requires
            self.wf(),
        ensures
            r@ == error_recovery_text(self.states(), tokens@.map_values(|t: Token| t@)),
    {
        proof {
            reveal_strlit("    fn viable_error_recovery_states(token: &AATerminal) -> Vec<u32> {\n        match token {\n");
            reveal_strlit("            AATerminal::");
            reveal_strlit(" => ");
            reveal_strlit(",\n");
            reveal_strlit("            _ => vec![],\n");
            reveal_strlit("        }\n    }\n\n");
            reveal_strlit("    fn error_goto_state(state: u32) -> u32 {\n        match state {\n");
            reveal_strlit("            ");
            reveal_strlit("            _ => panic!(\"No error go to state for {}\", state),\n        }\n    }\n\n");
            self.lemma_wf();
        }
        let ghost sv = self.states();
        let ghost tv = tokens@.map_values(|t: Token| t@);
        let mut matches = String::new();
        let mut default_required = false;
        let mut i: usize = 0;
        proof {
            assert(tv.take(0) =~= Seq::<TokenView>::empty());
        }
        while i < tokens.len()
            invariant
                self.wf(),
                sv == self.states(),
                tv == tokens@.map_values(|t: Token| t@),
                i <= tokens@.len(),
                matches@ == recovery_match_lines(sv, tv.take(i as int)),
                default_required == exists|j: int| 0 <= j < i && recovery_states_for(sv, #[trigger] tv[j], sv.len() as int).len() == 0,
            decreases tokens@.len() - i,
        {
            proof {
                assert(tv[i as int] == tokens@[i as int]@);
                assert(tv.take(i + 1).drop_last() =~= tv.take(i as int));
                assert(tv.take(i + 1).last() == tv[i as int]);
            }
            let set = self.error_recovery_states_for_token(&tokens[i]);
            if set.len() > 0 {
                matches.append("            AATerminal::");
                matches.append(token_name_str(&tokens[i]));
                matches.append(" => ");
                matches.append(format_u32_vec(&set).as_str());
                matches.append(",\n");
            } else {
                default_required = true;
                proof {
                    assert(matches@ + Seq::<char>::empty() =~= matches@);
                }
            }
            i = i + 1;
        }
        proof {
            assert(tv.take(i as int) =~= tv);
        }
        let states = self.parser_states();
        let mut gotos = String::new();
        let mut s: usize = 0;
        proof {
            assert(sv.take(0) =~= Seq::<ParserStateView>::empty());
        }
        while s < states.len()
            invariant
                sv == self.states(),
                states_view(states@) == sv,
                s <= states@.len(),
                gotos@ == error_goto_lines(sv.take(s as int)),
            decreases states@.len() - s,
        {
            proof {
                assert(sv[s as int] == states@[s as int]@);
                assert(sv.take(s + 1).drop_last() =~= sv.take(s as int));
                assert(sv.take(s + 1).last() == sv[s as int]);
            }
            match states[s].error_recovery_state() {
                Some(e) => {
                    gotos.append("            ");
                    gotos.append(decimal_u32(states[s].ident()).as_str());
                    gotos.append(" => ");
                    gotos.append(decimal_u32(e).as_str());
                    gotos.append(",\n");
                },
                None => {
                    proof {
                        assert(gotos@ + Seq::<char>::empty() =~= gotos@);
                    }
                },
            }
            s = s + 1;
        }
        proof {
            assert(sv.take(s as int) =~= sv);
        }
        let default_arm = if default_required {
            String::from_str("            _ => vec![],\n")
        } else {
            String::new()
        };
        let mut r = String::from_str("    fn viable_error_recovery_states(token: &AATerminal) -> Vec<u32> {\n        match token {\n");
        r.append(matches.as_str());
        r.append(default_arm.as_str());
        r.append("        }\n    }\n\n");
        r.append("    fn error_goto_state(state: u32) -> u32 {\n        match state {\n");
        r.append(gotos.as_str());
        r.append("            _ => panic!(\"No error go to state for {}\", state),\n        }\n    }\n\n");
        r
    }
}


/// The views of a list of tokens.
pub open spec fn tokens_view(tokens: Seq<Token>) -> Seq<TokenView> {
    tokens.map_values(|t: Token| t@)
}

/// The texts of a list of strings.
pub open spec fn texts_view(texts: Seq<String>) -> Seq<Seq<char>> {
    texts.map_values(|t: String| t@)
}

/// A variant of the generated `AATerminal` for each token.
pub open spec fn terminal_variant_lines(ts: Seq<TokenView>) -> Seq<char>
    decreases ts.len(),
{
    if ts.len() == 0 {
        Seq::empty()
    } else {
        terminal_variant_lines(ts.drop_last()) + "    "@ + token_name_text(ts.last()) + ",\n"@
    }
}

/// An arm of the generated `Display` of `AATerminal` for each token: a
/// literal token shows as its text, the others as their names.
pub open spec fn terminal_display_lines(ts: Seq<TokenView>) -> Seq<char>
    decreases ts.len(),
{
    if ts.len() == 0 {
        Seq::empty()
    } else {
        terminal_display_lines(ts.drop_last()) + "            AATerminal::"@ + token_name_text(ts.last())
            + " => write!(f, r###\""@ + token_symbol_text(ts.last()) + "\"###),\n"@
    }
}

/// A variant of the generated `AANonTerminal` for each name.
pub open spec fn non_terminal_variant_lines(ns: Seq<Seq<char>>) -> Seq<char>
    decreases ns.len(),
{
    if ns.len() == 0 {
        Seq::empty()
    } else {
        non_terminal_variant_lines(ns.drop_last()) + "    "@ + ns.last() + ",\n"@
    }
}

/// An arm of the generated `Display` of `AANonTerminal` for each name.
pub open spec fn non_terminal_display_lines(ns: Seq<Seq<char>>) -> Seq<char>
    decreases ns.len(),
{
    if ns.len() == 0 {
        Seq::empty()
    } else {
        non_terminal_display_lines(ns.drop_last()) + "            AANonTerminal::"@ + ns.last() + " => write!(f, r\""@
            + ns.last() + "\"),\n"@
    }
}

/// The entries of the literal tokens of `ts` in the generated lexical analyser.
pub open spec fn literal_token_lines(ts: Seq<TokenView>) -> Seq<char>
    decreases ts.len(),
{
    if ts.len() == 0 {
        Seq::empty()
    } else {
        literal_token_lines(ts.drop_last()) + match ts.last() {
            TokenView::Literal(d) => "                ("@ + d.name + ", r###"@ + d.text + "###),\n"@,
            _ => Seq::empty(),
        }
    }
}

/// The entries of the regular expression tokens of `ts` in the generated
/// lexical analyser.
pub open spec fn regex_token_lines(ts: Seq<TokenView>) -> Seq<char>
    decreases ts.len(),
{
    if ts.len() == 0 {
        Seq::empty()
    } else {
        regex_token_lines(ts.drop_last()) + match ts.last() {
            TokenView::Regex(d) => "                ("@ + d.name + ", r###\""@ + d.text + "\"###),\n"@,
            _ => Seq::empty(),
        }
    }
}

/// The skip rules in the generated lexical analyser.
pub open spec fn skip_rule_lines(ss: Seq<Seq<char>>) -> Seq<char>
    decreases ss.len(),
{
    if ss.len() == 0 {
        Seq::empty()
    } else {
        skip_rule_lines(ss.drop_last()) + "                r###\""@ + ss.last() + "\"###,\n"@
    }
}

/// The generated lexical analyser of the tokens `ts` and the skip rules `ss`.
pub open spec fn lexical_analyzer_text(ts: Seq<TokenView>, ss: Seq<Seq<char>>) -> Seq<char> {
    "lazy_static::lazy_static! {\n    static ref AALEXAN: lexan::LexicalAnalyzer<AATerminal> = {\n        use AATerminal::*;\n        lexan::LexicalAnalyzer::new(\n            &[\n"@
        + literal_token_lines(ts) + "            ],\n            &[\n"@ + regex_token_lines(ts) + "            ],\n            &[\n"@
        + skip_rule_lines(ss) + "            ],\n            AAEnd,\n        )\n    };\n}\n\n"@
}

/// The code that comes before the generated symbols: the set macro the
/// generated tables use.
pub open spec fn symbols_prelude_text() -> Seq<char> {
    "use std::collections::BTreeSet;\n\nmacro_rules! btree_set {\n    () => { BTreeSet::new() };\n    ( $( $x:expr ),* ) => {\n        {\n            let mut set = BTreeSet::new();\n            $( set.insert($x); )*\n            set\n        }\n    };\n    ( $( $x:expr ),+ , ) => {\n        btree_set![ $( $x ), * ]\n    };\n}\n\n"@
}

/// The generated symbols: `AATerminal` with the end token and the tokens
/// `ts`, its `Display`, the lexical analyser, and `AANonTerminal` with the
/// non terminals named `ns`, with its `Display`.
pub open spec fn symbol_enum_text(ns: Seq<Seq<char>>, ts: Seq<TokenView>, ss: Seq<Seq<char>>) -> Seq<char> {
    let all = seq![TokenView::EndToken] + ts;
    symbols_prelude_text() + "#[derive(Debug, Clone, Copy, PartialOrd, Ord, PartialEq, Eq)]\npub enum AATerminal {\n"@
        + terminal_variant_lines(all) + "}\n\n"@
        + "impl std::fmt::Display for AATerminal {\n    fn fmt(&self, f: &mut std::fmt::Formatter) -> std::fmt::Result {\n        match self {\n"@
        + terminal_display_lines(all) + "        }\n    }\n}\n\n"@ + lexical_analyzer_text(ts, ss)
        + "#[derive(Debug, Clone, Copy, PartialOrd, Ord, PartialEq, Eq)]\npub enum AANonTerminal {\n"@
        + non_terminal_variant_lines(ns) + "}\n\n"@
        + "impl std::fmt::Display for AANonTerminal {\n    fn fmt(&self, f: &mut std::fmt::Formatter) -> std::fmt::Result {\n        match self {\n"@
        + non_terminal_display_lines(ns) + "        }\n    }\n}\n\n"@
}

/// The variant lines and the display lines of the terminals `tokens`.
fn terminal_lines(tokens: &Vec<Token>) -> (r: (String, String))
    ensures
        r.0@ == terminal_variant_lines(tokens_view(tokens@)),
        r.1@ == terminal_display_lines(tokens_view(tokens@)),
{
    proof {
        reveal_strlit("    ");
        reveal_strlit(",\n");
        reveal_strlit("            AATerminal::");
        reveal_strlit(" => write!(f, r###\"");
        reveal_strlit("\"###),\n");
    }
    let ghost tv = tokens_view(tokens@);
    let mut variants = String::new();
    let mut display = String::new();
    let mut i: usize = 0;
    proof {
        assert(tv.take(0) =~= Seq::<TokenView>::empty());
    }
    while i < tokens.len()
        invariant
            tv == tokens_view(tokens@),
            i <= tokens@.len(),
            variants@ == terminal_variant_lines(tv.take(i as int)),
            display@ == terminal_display_lines(tv.take(i as int)),
        decreases tokens@.len() - i,
    {
        proof {
            assert(tv.take(i + 1).drop_last() =~= tv.take(i as int));
            assert(tv.take(i + 1).last() == tokens@[i as int]@);
        }
        let name = token_name_str(&tokens[i]);
        variants.append("    ");
        variants.append(name);
        variants.append(",\n");
        display.append("            AATerminal::");
        display.append(name);
        display.append(" => write!(f, r###\"");
        display.append(token_symbol_str(&tokens[i]));
        display.append("\"###),\n");
        i = i + 1;
    }
    proof {
        assert(tv.take(i as int) =~= tv);
    }
    (variants, display)
}

impl Grammar {
    /// The generated lexical analyser of the tokens `tokens` (the tokens of
    /// the specification, without the end token) and the skip rules
    /// `skip_rules`.
    pub fn write_lexical_analyzer_code(&self, tokens: &Vec<Token>, skip_rules: &Vec<String>) -> (r: String)
        ensures
            r@ == lexical_analyzer_text(tokens_view(tokens@), texts_view(skip_rules@)),
    {
        proof {
            reveal_strlit("lazy_static::lazy_static! {\n    static ref AALEXAN: lexan::LexicalAnalyzer<AATerminal> = {\n        use AATerminal::*;\n        lexan::LexicalAnalyzer::new(\n            &[\n");
            reveal_strlit("            ],\n            &[\n");
            reveal_strlit("            ],\n            AAEnd,\n        )\n    };\n}\n\n");
            reveal_strlit("                (");
            reveal_strlit(", r###");
            reveal_strlit("###),\n");
            reveal_strlit(", r###\"");
            reveal_strlit("\"###),\n");
            reveal_strlit("                r###\"");
            reveal_strlit("\"###,\n");
        }
        let ghost tv = tokens_view(tokens@);
        let ghost sv = texts_view(skip_rules@);
        let mut literals = String::new();
        let mut regexes = String::new();
        let mut i: usize = 0;
        proof {
            assert(tv.take(0) =~= Seq::<TokenView>::empty());
        }
        while i < tokens.len()
            invariant
                tv == tokens_view(tokens@),
                i <= tokens@.len(),
                literals@ == literal_token_lines(tv.take(i as int)),
                regexes@ == regex_token_lines(tv.take(i as int)),
            decreases tokens@.len() - i,
        {
            proof {
                assert(tv.take(i + 1).drop_last() =~= tv.take(i as int));
                assert(tv.take(i + 1).last() == tokens@[i as int]@);
            }
            match &tokens[i] {
                Token::Literal(_) => {
                    literals.append("                (");
                    literals.append(tokens[i].name());
                    literals.append(", r###");
                    literals.append(tokens[i].text());
                    literals.append("###),\n");
                    proof {
                        assert(regexes@ + Seq::<char>::empty() =~= regexes@);
                    }
                },
                Token::Regex(_) => {
                    regexes.append("                (");
                    regexes.append(tokens[i].name());
                    regexes.append(", r###\"");
                    regexes.append(tokens[i].text());
                    regexes.append("\"###),\n");
                    proof {
                        assert(literals@ + Seq::<char>::empty() =~= literals@);
                    }
                },
                Token::EndToken => {
                    proof {
                        assert(literals@ + Seq::<char>::empty() =~= literals@);
                        assert(regexes@ + Seq::<char>::empty() =~= regexes@);
                    }
                },
            }
            i = i + 1;
        }
        proof {
            assert(tv.take(i as int) =~= tv);
        }
        let mut skips = String::new();
        let mut k: usize = 0;
        proof {
            assert(sv.take(0) =~= Seq::<Seq<char>>::empty());
        }
        while k < skip_rules.len()
            invariant
                sv == texts_view(skip_rules@),
                k <= skip_rules@.len(),
                skips@ == skip_rule_lines(sv.take(k as int)),
            decreases skip_rules@.len() - k,
        {
            proof {
                assert(sv.take(k + 1).drop_last() =~= sv.take(k as int));
                assert(sv.take(k + 1).last() == skip_rules@[k as int]@);
            }
            skips.append("                r###\"");
            skips.append(skip_rules[k].as_str());
            skips.append("\"###,\n");
            k = k + 1;
        }
        proof {
            assert(sv.take(k as int) =~= sv);
        }
        let mut r = String::from_str("lazy_static::lazy_static! {\n    static ref AALEXAN: lexan::LexicalAnalyzer<AATerminal> = {\n        use AATerminal::*;\n        lexan::LexicalAnalyzer::new(\n            &[\n");
        r.append(literals.as_str());
        r.append("            ],\n            &[\n");
        r.append(regexes.as_str());
        r.append("            ],\n            &[\n");
        r.append(skips.as_str());
        r.append("            ],\n            AAEnd,\n        )\n    };\n}\n\n");
        r
    }

    /// The generated symbols of the grammar: the terminals (the end token
    /// and `tokens`, the tokens of the specification), the lexical analyser
    /// with the skip rules `skip_rules`, and the non terminals.
    #[verifier::rlimit(30)]
    pub fn write_symbol_enum_code(&self, tokens: &Vec<Token>, skip_rules: &Vec<String>) -> (r: String)
        requires
            self.wf(),
        ensures
            r@ == symbol_enum_text(self.spec_of().names(), tokens_view(tokens@), texts_view(skip_rules@)),
    {
        proof {
            self.lemma_wf();
            reveal_strlit("use std::collections::BTreeSet;\n\nmacro_rules! btree_set {\n    () => { BTreeSet::new() };\n    ( $( $x:expr ),* ) => {\n        {\n            let mut set = BTreeSet::new();\n            $( set.insert($x); )*\n            set\n        }\n    };\n    ( $( $x:expr ),+ , ) => {\n        btree_set![ $( $x ), * ]\n    };\n}\n\n");
            reveal_strlit("#[derive(Debug, Clone, Copy, PartialOrd, Ord, PartialEq, Eq)]\npub enum AATerminal {\n");
            reveal_strlit("}\n\n");
            reveal_strlit("impl std::fmt::Display for AATerminal {\n    fn fmt(&self, f: &mut std::fmt::Formatter) -> std::fmt::Result {\n        match self {\n");
            reveal_strlit("        }\n    }\n}\n\n");
            reveal_strlit("#[derive(Debug, Clone, Copy, PartialOrd, Ord, PartialEq, Eq)]\npub enum AANonTerminal {\n");
            reveal_strlit("impl std::fmt::Display for AANonTerminal {\n    fn fmt(&self, f: &mut std::fmt::Formatter) -> std::fmt::Result {\n        match self {\n");
            reveal_strlit("    ");
            reveal_strlit(",\n");
            reveal_strlit("            AANonTerminal::");
            reveal_strlit(" => write!(f, r\"");
            reveal_strlit("\"),\n");
        }
        let mut all: Vec<Token> = Vec::new();
        all.push(Token::EndToken);
        let mut i: usize = 0;
        while i < tokens.len()
            invariant
                i <= tokens@.len(),
                all@.len() == i + 1,
                all@[0]@ == TokenView::EndToken,
                forall|j: int| 0 <= j < i ==> (#[trigger] all@[j + 1])@ == tokens@[j]@,
            decreases tokens@.len() - i,
        {
            all.push(tokens[i].snapshot());
            i = i + 1;
        }
        proof {
            let e = seq![TokenView::EndToken] + tokens_view(tokens@);
            assert forall|j: int| 0 <= j < all@.len() implies tokens_view(all@)[j] == e[j] by {
                if j > 0 {
                    assert(all@[(j - 1) + 1]@ == tokens@[j - 1]@);
                }
            }
            assert(tokens_view(all@) =~= e);
        }
        let (variants, display) = terminal_lines(&all);
        let specification = self.specification();
        let ghost ns = self.spec_of().names();
        let count = specification.non_terminal_count();
        let mut nt_variants = String::new();
        let mut nt_display = String::new();
        let mut n: u32 = 0;
        proof {
            specification.lemma_prods_wf();
            assert(ns.take(0) =~= Seq::<Seq<char>>::empty());
        }
        while n < count
            invariant
                specification.prods_wf(),
                ns == specification.names(),
                count == specification.non_terminals(),
                ns.len() == count,
                n <= count,
                nt_variants@ == non_terminal_variant_lines(ns.take(n as int)),
                nt_display@ == non_terminal_display_lines(ns.take(n as int)),
            decreases count - n,
        {
            proof {
                assert(ns.take(n + 1).drop_last() =~= ns.take(n as int));
                assert(ns.take(n + 1).last() == ns[n as int]);
            }
            let name = specification.non_terminal_name(n);
            nt_variants.append("    ");
            nt_variants.append(name);
            nt_variants.append(",\n");
            nt_display.append("            AANonTerminal::");
            nt_display.append(name);
            nt_display.append(" => write!(f, r\"");
            nt_display.append(name);
            nt_display.append("\"),\n");
            n = n + 1;
        }
        proof {
            assert(ns.take(n as int) =~= ns);
        }
        let mut r = String::from_str("use std::collections::BTreeSet;\n\nmacro_rules! btree_set {\n    () => { BTreeSet::new() };\n    ( $( $x:expr ),* ) => {\n        {\n            let mut set = BTreeSet::new();\n            $( set.insert($x); )*\n            set\n        }\n    };\n    ( $( $x:expr ),+ , ) => {\n        btree_set![ $( $x ), * ]\n    };\n}\n\n");
        r.append("#[derive(Debug, Clone, Copy, PartialOrd, Ord, PartialEq, Eq)]\npub enum AATerminal {\n");
        r.append(variants.as_str());
        r.append("}\n\n");
        r.append("impl std::fmt::Display for AATerminal {\n    fn fmt(&self, f: &mut std::fmt::Formatter) -> std::fmt::Result {\n        match self {\n");
        r.append(display.as_str());
        r.append("        }\n    }\n}\n\n");
        r.append(self.write_lexical_analyzer_code(tokens, skip_rules).as_str());
        r.append("#[derive(Debug, Clone, Copy, PartialOrd, Ord, PartialEq, Eq)]\npub enum AANonTerminal {\n");
        r.append(nt_variants.as_str());
        r.append("}\n\n");
        r.append("impl std::fmt::Display for AANonTerminal {\n    fn fmt(&self, f: &mut std::fmt::Formatter) -> std::fmt::Result {\n        match self {\n");
        r.append(nt_display.as_str());
        r.append("        }\n    }\n}\n\n");
        r
    }
}


/// The generated implementation of the parser trait for the target type
/// `target`: the lexical analyser's accessor and the parse tables of the
/// states `sv` (with the look ahead sets `las` and the reductions `reds`),
/// the error recovery tables over the end token and `tokens`, and the
/// semantic actions `semantic`.
pub open spec fn parser_implementation_text(
    names: Seq<Seq<char>>,
    prods: Seq<ProductionView>,
    sv: Seq<ParserStateView>,
    tokens: Seq<TokenView>,
    las: Seq<Seq<TokenView>>,
    reds: Seq<Seq<(Seq<u32>, Seq<TokenView>)>>,
    attr: Seq<char>,
    target: Seq<char>,
    semantic: Seq<char>,
) -> Seq<char> {
    "impl lalr1plus::Parser<AATerminal, AANonTerminal, "@ + attr + "> for "@ + target + " {\n"@
        + "    fn lexical_analyzer(&self) -> &lexan::LexicalAnalyzer<AATerminal> {\n        &AALEXAN\n    }\n\n"@
        + error_recovery_text(sv, seq![TokenView::EndToken] + tokens) + look_ahead_fn_text(sv, las)
        + next_action_fn_text(names, prods, sv, reds, attr) + production_data_text(names, prods) + goto_state_fn_text(names, sv)
        + semantic + "}\n"@
}

impl Grammar {
    /// The generated implementation of the parser trait, with the tokens of
    /// the specification `tokens` (without the end token) and the generated
    /// semantic actions `semantic_actions`.
    pub fn write_parser_implementation_code(&self, tokens: &Vec<Token>, semantic_actions: &str) -> (r: String)
        requires
            self.wf(),
        ensures
            exists|las: Seq<Seq<TokenView>>, reds: Seq<Seq<(Seq<u32>, Seq<TokenView>)>>|
                las.len() == self.states().len()
                && (forall|i: int| 0 <= i < las.len() ==> is_look_ahead_of(self.states()[i], #[trigger] las[i]))
                && reductions_of_states(self.states(), reds)
                && r@ == #[trigger] parser_implementation_text(
                    self.spec_of().names(),
                    self.spec_of().prods(),
                    self.states(),
                    tokens_view(tokens@),
                    las,
                    reds,
                    self.spec_of().attribute_type_text(),
                    self.spec_of().target_type_text(),
                    semantic_actions@,
                ),
    {
        proof {
            reveal_strlit("impl lalr1plus::Parser<AATerminal, AANonTerminal, ");
            reveal_strlit("> for ");
            reveal_strlit(" {\n");
            reveal_strlit("    fn lexical_analyzer(&self) -> &lexan::LexicalAnalyzer<AATerminal> {\n        &AALEXAN\n    }\n\n");
            reveal_strlit("}\n");
            self.lemma_wf();
        }
        let mut all: Vec<Token> = Vec::new();
        all.push(Token::EndToken);
        let mut i: usize = 0;
        while i < tokens.len()
            invariant
                i <= tokens@.len(),
                all@.len() == i + 1,
                all@[0]@ == TokenView::EndToken,
                forall|j: int| 0 <= j < i ==> (#[trigger] all@[j + 1])@ == tokens@[j]@,
            decreases tokens@.len() - i,
        {
            all.push(tokens[i].snapshot());
            i = i + 1;
        }
        proof {
            let e = seq![TokenView::EndToken] + tokens_view(tokens@);
            assert forall|j: int| 0 <= j < all@.len() implies tokens_view(all@)[j] == e[j] by {
                if j > 0 {
                    assert(all@[(j - 1) + 1]@ == tokens@[j - 1]@);
                }
            }
            assert(tokens_view(all@) =~= e);
            assert(all@.map_values(|t: Token| t@) == tokens_view(all@));
        }
        let specification = self.specification();
        let recovery = self.write_error_recovery_code(&all);
        let look_ahead = self.write_look_ahead_set_code();
        let next_action = self.write_next_action_code();
        let production_data = specification.write_production_data_code();
        let goto_table = self.write_goto_table_code();
        let mut r = String::from_str("impl lalr1plus::Parser<AATerminal, AANonTerminal, ");
        r.append(specification.attribute_type());
        r.append("> for ");
        r.append(specification.target_type());
        r.append(" {\n");
        r.append("    fn lexical_analyzer(&self) -> &lexan::LexicalAnalyzer<AATerminal> {\n        &AALEXAN\n    }\n\n");
        r.append(recovery.as_str());
        r.append(look_ahead.as_str());
        r.append(next_action.as_str());
        r.append(production_data.as_str());
        r.append(goto_table.as_str());
        r.append(semantic_actions);
        r.append("}\n");
        proof {
            let las = choose|las: Seq<Seq<TokenView>>|
                las.len() == self.states().len() && (forall|i: int| 0 <= i < las.len() ==> is_look_ahead_of(
                    self.states()[i],
                    #[trigger] las[i],
                )) && look_ahead@ == #[trigger] look_ahead_fn_text(self.states(), las);
            let reds = choose|reds: Seq<Seq<(Seq<u32>, Seq<TokenView>)>>|
                #[trigger] reductions_of_states(self.states(), reds) && next_action@ == next_action_fn_text(
                    self.spec_of().names(),
                    self.spec_of().prods(),
                    self.states(),
                    reds,
                    self.spec_of().attribute_type_text(),
                );
            assert(r@ == parser_implementation_text(
                self.spec_of().names(),
                self.spec_of().prods(),
                self.states(),
                tokens_view(tokens@),
                las,
                reds,
                self.spec_of().attribute_type_text(),
                self.spec_of().target_type_text(),
                semantic_actions@,
            ));
        }
        r
    }

    /// The generated parser: the preamble `preamble` and a new line, the
    /// symbols with the tokens `tokens` (without the end token) and the skip
    /// rules `skip_rules`, and the implementation of the parser trait with
    /// the semantic actions `semantic_actions`.
    pub fn write_parser_code(&self, preamble: &str, tokens: &Vec<Token>, skip_rules: &Vec<String>, semantic_actions: &str) -> (r: String)
        requires
            self.wf(),
        ensures
            exists|las: Seq<Seq<TokenView>>, reds: Seq<Seq<(Seq<u32>, Seq<TokenView>)>>|
                las.len() == self.states().len()
                && (forall|i: int| 0 <= i < las.len() ==> is_look_ahead_of(self.states()[i], #[trigger] las[i]))
                && reductions_of_states(self.states(), reds)
                && r@ == preamble@ + "\n"@ + symbol_enum_text(self.spec_of().names(), tokens_view(tokens@), texts_view(skip_rules@))
                    + #[trigger] parser_implementation_text(
                    self.spec_of().names(),
                    self.spec_of().prods(),
                    self.states(),
                    tokens_view(tokens@),
                    las,
                    reds,
                    self.spec_of().attribute_type_text(),
                    self.spec_of().target_type_text(),
                    semantic_actions@,
                ),
    {
        proof {
            reveal_strlit("\n");
        }
        let mut r = String::from_str(preamble);
        r.append("\n");
        r.append(self.write_symbol_enum_code(tokens, skip_rules).as_str());
        let implementation = self.write_parser_implementation_code(tokens, semantic_actions);
        r.append(implementation.as_str());
        r
    }
}


/// The state has a conflict of the kind asked for: a reduce/reduce conflict
/// where `rr` holds, else a shift/reduce conflict.
pub open spec fn has_conflict(st: ParserStateView, rr: bool) -> bool {
    if rr {
        st.reduce_reduce_conflicts.len() > 0
    } else {
        st.shift_reduce_conflicts.len() > 0
    }
}

/// The descriptions of the states of `sv` that have a conflict of the kind
/// `rr` asks for, with the look ahead sets `las` and the error recovery look
/// ahead sets `rlas` (one of each per state).
pub open spec fn conflict_descriptions(
    names: Seq<Seq<char>>,
    prods: Seq<ProductionView>,
    sv: Seq<ParserStateView>,
    las: Seq<Seq<TokenView>>,
    rlas: Seq<Seq<TokenView>>,
    rr: bool,
) -> Seq<char>
    decreases sv.len(),
{
    if sv.len() == 0 {
        Seq::empty()
    } else {
        conflict_descriptions(names, prods, sv.drop_last(), las.drop_last(), rlas.drop_last(), rr) + if has_conflict(sv.last(), rr) {
            crate::description::state_description_text(names, prods, sv.last(), las.last(), rlas.last())
        } else {
            Seq::empty()
        }
    }
}

/// The look ahead sets `las` and `rlas` are those of the states of `sv`
/// that have a conflict of the kind `rr` asks for.
pub open spec fn conflict_look_aheads(all: Seq<ParserStateView>, sv: Seq<ParserStateView>, las: Seq<Seq<TokenView>>, rlas: Seq<Seq<TokenView>>, rr: bool) -> bool {
    &&& las.len() == sv.len()
    &&& rlas.len() == sv.len()
    &&& forall|s: int| 0 <= s < sv.len() && #[trigger] has_conflict(sv[s], rr) ==> {
        &&& is_look_ahead_of(sv[s], las[s])
        &&& match sv[s].error_recovery_state {
            Some(e) => is_look_ahead_of(all[e as int], rlas[s]),
            None => true,
        }
    }
}

impl Grammar {
    /// The descriptions of the states with a conflict of the kind `rr` asks for.
    fn describe_conflict_states(&self, rr: bool) -> (r: String)
        requires
            self.wf(),
        ensures
            exists|las: Seq<Seq<TokenView>>, rlas: Seq<Seq<TokenView>>|
                conflict_look_aheads(self.states(), self.states(), las, rlas, rr)
                && r@ == #[trigger] conflict_descriptions(self.spec_of().names(), self.spec_of().prods(), self.states(), las, rlas, rr),
    {
        proof {
            self.lemma_wf();
        }
        let specification = self.specification();
        let states = self.parser_states();
        let ghost sv = self.states();
        let ghost mut las: Seq<Seq<TokenView>> = Seq::empty();
        let ghost mut rlas: Seq<Seq<TokenView>> = Seq::empty();
        let mut r = String::new();
        let mut s: usize = 0;
        proof {
            assert(sv.take(0) =~= Seq::<ParserStateView>::empty());
        }
        while s < states.len()
            invariant
                self.wf(),
                *specification == self.spec_of(),
                specification.prods_wf(),
                states@ == self.parser_states_seq(),
                sv == self.states(),
                states_view(states@) == sv,
                s <= states@.len(),
                forall|t: int| 0 <= t < states@.len() ==> (#[trigger] states@[t]).wf() && state_describable(
                    specification.prods(),
                    specification.non_terminals(),
                    states@[t]@,
                    states@.len(),
                ),
                conflict_look_aheads(sv, sv.take(s as int), las, rlas, rr),
                r@ == conflict_descriptions(specification.names(), specification.prods(), sv.take(s as int), las, rlas, rr),
            decreases states@.len() - s,
        {
            proof {
                assert(sv[s as int] == states@[s as int]@);
                assert(sv.take(s + 1).drop_last() =~= sv.take(s as int));
                assert(sv.take(s + 1).last() == sv[s as int]);
            }
            let conflicted = if rr {
                states[s].reduce_reduce_conflict_list().len() > 0
            } else {
                states[s].shift_reduce_conflict_list().len() > 0
            };
            if conflicted {
                let d = states[s].description(specification, states);
                proof {
                    let (la, rla) = choose|la: Seq<TokenView>, rla: Seq<TokenView>|
                        is_look_ahead_of(states@[s as int]@, la) && (match states@[s as int]@.error_recovery_state {
                            Some(e) => is_look_ahead_of(states@[e as int]@, rla),
                            None => true,
                        }) && d@ == #[trigger] crate::description::state_description_text(
                            specification.names(),
                            specification.prods(),
                            states@[s as int]@,
                            la,
                            rla,
                        );
                    match states@[s as int]@.error_recovery_state {
                        Some(e) => {
                            assert(sv[e as int] == states@[e as int]@);
                        },
                        None => {},
                    }
                    let old_las = las;
                    let old_rlas = rlas;
                    las = las.push(la);
                    rlas = rlas.push(rla);
                    assert(las.drop_last() =~= old_las);
                    assert(rlas.drop_last() =~= old_rlas);
                    assert forall|j: int| 0 <= j < s + 1 && #[trigger] has_conflict(sv.take(s + 1)[j], rr) implies {
                        &&& is_look_ahead_of(sv.take(s + 1)[j], las[j])
                        &&& match sv.take(s + 1)[j].error_recovery_state {
                            Some(e) => is_look_ahead_of(sv[e as int], rlas[j]),
                            None => true,
                        }
                    } by {
                        if j < s {
                            assert(sv.take(s + 1)[j] == sv.take(s as int)[j]);
                            assert(has_conflict(sv.take(s as int)[j], rr));
                        }
                    }
                }
                r.append(d.as_str());
            } else {
                proof {
                    let old_las = las;
                    let old_rlas = rlas;
                    las = las.push(Seq::empty());
                    rlas = rlas.push(Seq::empty());
                    assert(las.drop_last() =~= old_las);
                    assert(rlas.drop_last() =~= old_rlas);
                    assert(r@ + Seq::<char>::empty() =~= r@);
                    assert forall|j: int| 0 <= j < s + 1 && #[trigger] has_conflict(sv.take(s + 1)[j], rr) implies {
                        &&& is_look_ahead_of(sv.take(s + 1)[j], las[j])
                        &&& match sv.take(s + 1)[j].error_recovery_state {
                            Some(e) => is_look_ahead_of(sv[e as int], rlas[j]),
                            None => true,
                        }
                    } by {
                        if j < s {
                            assert(sv.take(s + 1)[j] == sv.take(s as int)[j]);
                            assert(has_conflict(sv.take(s as int)[j], rr));
                        }
                    }
                }
            }
            s = s + 1;
        }
        proof {
            assert(sv.take(s as int) =~= sv);
        }
        r
    }

    /// The descriptions of the states with shift/reduce conflicts that only
    /// a default resolved.
    pub fn describe_sr_conflict_states(&self) -> (r: String)
        requires
            self.wf(),
        ensures
            exists|las: Seq<Seq<TokenView>>, rlas: Seq<Seq<TokenView>>|
                conflict_look_aheads(self.states(), self.states(), las, rlas, false)
                && r@ == #[trigger] conflict_descriptions(self.spec_of().names(), self.spec_of().prods(), self.states(), las, rlas, false),
    {
        self.describe_conflict_states(false)
    }

    /// The descriptions of the states with reduce/reduce conflicts that only
    /// a default resolved.
    pub fn describe_rr_conflict_states(&self) -> (r: String)
        requires
            self.wf(),
        ensures
            exists|las: Seq<Seq<TokenView>>, rlas: Seq<Seq<TokenView>>|
                conflict_look_aheads(self.states(), self.states(), las, rlas, true)
                && r@ == #[trigger] conflict_descriptions(self.spec_of().names(), self.spec_of().prods(), self.states(), las, rlas, true),
    {
        self.describe_conflict_states(true)
    }
}

} // verus!
