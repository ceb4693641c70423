//! Kinds of grammar symbols and the associativity and precedence that
//! resolve conflicts between them.

use vstd::prelude::*;

verus! {

/// How a token or tag associates when two productions of equal precedence meet.
#[derive(Debug, Clone, Copy, PartialEq, Eq, Structural)]
pub enum Associativity {
    NonAssoc,
    Left,
    Right,
}

impl Default for Associativity {
    fn default() -> (r: Self)
        ensures
            r == Associativity::NonAssoc,
    {
        Associativity::NonAssoc
    }
}

/// The text that names an associativity in descriptions.
pub open spec fn associativity_name(associativity: Associativity) -> Seq<char> {
    match associativity {
        Associativity::NonAssoc => "NonAssoc"@,
        Associativity::Left => "Left"@,
        Associativity::Right => "Right"@,
    }
}

impl Associativity {
    /// The name of this associativity, as descriptions print it.
    pub fn name(&self) -> (r: &'static str)
        ensures
            r@ == associativity_name(*self),
    {
        match self {
            Associativity::NonAssoc => "NonAssoc",
            Associativity::Left => "Left",
            Associativity::Right => "Right",
        }
    }
}

/// An associativity together with a precedence.
#[derive(Debug, Clone, Copy, PartialEq, Eq, Structural)]
pub struct AssociativePrecedence {
    pub associativity: Associativity,
    pub precedence: u32,
}

impl Default for AssociativePrecedence {
    fn default() -> (r: Self)
        ensures
            r.associativity == Associativity::NonAssoc,
            r.precedence == 0,
    {
        AssociativePrecedence { associativity: Associativity::NonAssoc, precedence: 0 }
    }
}

/// What kind of thing a grammar symbol is.
#[derive(Debug, Clone, Copy, PartialEq, Eq, Structural)]
pub enum SymbolType {
    Token,
    Tag,
    NonTerminal,
}

impl SymbolType {
    pub fn is_token(&self) -> (r: bool)
        ensures
            r == (*self is Token),
    {
        match self {
            SymbolType::Token => true,
            _ => false,
        }
    }

    pub fn is_non_terminal(&self) -> (r: bool)
        ensures
            r == (*self is NonTerminal),
    {
        match self {
            SymbolType::NonTerminal => true,
            _ => false,
        }
    }
}

} // verus!
