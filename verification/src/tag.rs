//! Tags: names that carry an associativity and a precedence for productions
//! that name them.

use vstd::prelude::*;

use crate::location::{locations_view, snapshot_all, Location, LocationView};
use crate::symbol::Associativity;
use crate::terminal::{Token, TokenView};

verus! {

/// Abstract value of a [`TagData`] and of a [`Tag`].
pub struct TagView {
    pub name: Seq<char>,
    pub defined_at: LocationView,
    pub used_at: Seq<LocationView>,
    pub associativity: Associativity,
    pub precedence: u16,
}

/// What a grammar specification says of a tag.
#[derive(Debug)]
pub struct TagData {
    name: String,
    defined_at: Location,
    used_at: Vec<Location>,
    associativity: Associativity,
    precedence: u16,
}

impl View for TagData {
    type V = TagView;

    closed spec fn view(&self) -> TagView {
        TagView {
            name: self.name@,
            defined_at: self.defined_at@,
            used_at: locations_view(self.used_at@),
            associativity: self.associativity,
            precedence: self.precedence,
        }
    }
}

/// The data of a tag that has just been defined.
pub open spec fn fresh_tag(name: Seq<char>, defined_at: LocationView) -> TagView {
    TagView {
        name,
        defined_at,
        used_at: Seq::empty(),
        associativity: Associativity::NonAssoc,
        precedence: 0,
    }
}

impl TagData {
    pub fn new(name: &str, defined_at: &Location) -> (r: Self)
        ensures
            r@ == fresh_tag(name@, defined_at@),
    {
        let r = TagData {
            name: name.to_string(),
            defined_at: defined_at.snapshot(),
            used_at: Vec::new(),
            associativity: Associativity::NonAssoc,
            precedence: 0,
        };
        proof {
            assert(locations_view(r.used_at@) =~= Seq::<LocationView>::empty());
        }
        r
    }

    /// A copy of this data.
    pub fn snapshot(&self) -> (r: Self)
        ensures
            r@ == self@,
    {
        TagData {
            name: self.name.clone(),
            defined_at: self.defined_at.snapshot(),
            used_at: snapshot_all(&self.used_at),
            associativity: self.associativity,
            precedence: self.precedence,
        }
    }
}

/// A tag of a grammar specification.
#[derive(Debug)]
pub struct Tag(TagData);

impl View for Tag {
    type V = TagView;

    closed spec fn view(&self) -> TagView {
        self.0@
    }
}

impl Tag {
    pub fn new(name: &str, defined_at: &Location) -> (r: Self)
        ensures
            r@ == fresh_tag(name@, defined_at@),
    {
        Tag(TagData::new(name, defined_at))
    }

    /// A copy of this tag.
    pub fn snapshot(&self) -> (r: Self)
        ensures
            r@ == self@,
    {
        Tag(self.0.snapshot())
    }

    pub fn name(&self) -> (r: &str)
        ensures
            r@ == self@.name,
    {
        self.0.name.as_str()
    }

    pub fn defined_at(&self) -> (r: &Location)
        ensures
            r@ == self@.defined_at,
    {
        &self.0.defined_at
    }

    pub fn associativity(&self) -> (r: Associativity)
        ensures
            r == self@.associativity,
    {
        self.0.associativity
    }

    pub fn precedence(&self) -> (r: u16)
        ensures
            r == self@.precedence,
    {
        self.0.precedence
    }

    pub fn is_unused(&self) -> (r: bool)
        ensures
            r == (self@.used_at.len() == 0),
    {
        self.0.used_at.len() == 0
    }

    pub fn add_used_at(&mut self, used_at: &Location)
        ensures
            final(self)@ == (TagView { used_at: old(self)@.used_at.push(used_at@), ..old(self)@ }),
    {
        self.0.used_at.push(used_at.snapshot());
        proof {
            assert(locations_view(self.0.used_at@) =~= locations_view(old(self).0.used_at@).push(
                used_at@,
            ));
        }
    }

    pub fn set_associativity(&mut self, associativity: Associativity)
        ensures
            final(self)@ == (TagView { associativity, ..old(self)@ }),
    {
        self.0.associativity = associativity;
    }

    pub fn set_precedence(&mut self, precedence: u16)
        ensures
            final(self)@ == (TagView { precedence, ..old(self)@ }),
    {
        self.0.precedence = precedence;
    }
}

/// What a precedence declaration names: a tag, a token, or something that
/// is neither.
#[derive(Debug)]
pub enum TagOrToken {
    Tag(Tag),
    Token(Token),
    Invalid,
}

/// Abstract value of a [`TagOrToken`].
pub enum TagOrTokenView {
    Tag(TagView),
    Token(TokenView),
    Invalid,
}

impl View for TagOrToken {
    type V = TagOrTokenView;

    open spec fn view(&self) -> TagOrTokenView {
        match self {
            TagOrToken::Tag(tag) => TagOrTokenView::Tag(tag@),
            TagOrToken::Token(token) => TagOrTokenView::Token(token@),
            TagOrToken::Invalid => TagOrTokenView::Invalid,
        }
    }
}

impl TagOrToken {
    /// The tag `tag`, as a thing a precedence declaration names.
    pub fn from_tag(tag: &Tag) -> (r: Self)
        ensures
            r@ == TagOrTokenView::Tag(tag@),
    {
        TagOrToken::Tag(tag.snapshot())
    }

    /// The token `token`, as a thing a precedence declaration names.
    pub fn from_token(token: &Token) -> (r: Self)
        ensures
            r@ == TagOrTokenView::Token(token@),
    {
        TagOrToken::Token(token.snapshot())
    }
}

} // verus!
