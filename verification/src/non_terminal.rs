//! The non terminal symbols of a grammar specification.

use vstd::prelude::*;

use crate::location::{locations_view, snapshot_all, Location, LocationView};
use crate::symbol::Associativity;

verus! {

/// What a grammar specification says of a non terminal.
#[derive(Debug)]
pub struct NonTerminalData {
    name: String,
    defined_at: Vec<Location>,
    used_at: Vec<Location>,
    associativity: Associativity,
    precedence: u16,
}

/// Abstract value of a [`NonTerminalData`].
pub struct NonTerminalDataView {
    pub name: Seq<char>,
    pub defined_at: Seq<LocationView>,
    pub used_at: Seq<LocationView>,
    pub associativity: Associativity,
    pub precedence: u16,
}

impl View for NonTerminalData {
    type V = NonTerminalDataView;

    closed spec fn view(&self) -> NonTerminalDataView {
        NonTerminalDataView {
            name: self.name@,
            defined_at: locations_view(self.defined_at@),
            used_at: locations_view(self.used_at@),
            associativity: self.associativity,
            precedence: self.precedence,
        }
    }
}

/// The data of a non terminal named `name` that has been neither defined nor used.
pub open spec fn fresh_non_terminal(name: Seq<char>) -> NonTerminalDataView {
    NonTerminalDataView {
        name,
        defined_at: Seq::empty(),
        used_at: Seq::empty(),
        associativity: Associativity::NonAssoc,
        precedence: 0,
    }
}

impl NonTerminalData {
    fn new(name: &str) -> (r: Self)
        ensures
            r@ == fresh_non_terminal(name@),
    {
        let r = NonTerminalData {
            name: name.to_string(),
            defined_at: Vec::new(),
            used_at: Vec::new(),
            associativity: Associativity::NonAssoc,
            precedence: 0,
        };
        proof {
            assert(locations_view(r.defined_at@) =~= Seq::<LocationView>::empty());
            assert(locations_view(r.used_at@) =~= Seq::<LocationView>::empty());
        }
        r
    }

    fn snapshot(&self) -> (r: Self)
        ensures
            r@ == self@,
    {
        NonTerminalData {
            name: self.name.clone(),
            defined_at: snapshot_all(&self.defined_at),
            used_at: snapshot_all(&self.used_at),
            associativity: self.associativity,
            precedence: self.precedence,
        }
    }

    fn add_defined_at(&mut self, defined_at: &Location)
        ensures
            final(self)@ == (NonTerminalDataView { defined_at: old(self)@.defined_at.push(defined_at@), ..old(self)@ }),
    {
        self.defined_at.push(defined_at.snapshot());
        proof {
            assert(locations_view(self.defined_at@) =~= locations_view(old(self).defined_at@).push(defined_at@));
        }
    }

    fn add_used_at(&mut self, used_at: &Location)
        ensures
            final(self)@ == (NonTerminalDataView { used_at: old(self)@.used_at.push(used_at@), ..old(self)@ }),
    {
        self.used_at.push(used_at.snapshot());
        proof {
            assert(locations_view(self.used_at@) =~= locations_view(old(self).used_at@).push(used_at@));
        }
    }
}

/// Abstract value of a [`NonTerminal`].
pub enum NonTerminalView {
    UserDefined(NonTerminalDataView),
    Error(NonTerminalDataView),
    Start(NonTerminalDataView),
}

/// A non terminal: one the specification names, the error symbol, or the start symbol.
#[derive(Debug)]
pub enum NonTerminal {
    UserDefined(NonTerminalData),
    Error(NonTerminalData),
    Start(NonTerminalData),
}

impl View for NonTerminal {
    type V = NonTerminalView;

    open spec fn view(&self) -> NonTerminalView {
        match self {
            NonTerminal::UserDefined(d) => NonTerminalView::UserDefined(d@),
            NonTerminal::Error(d) => NonTerminalView::Error(d@),
            NonTerminal::Start(d) => NonTerminalView::Start(d@),
        }
    }
}

/// The data of any non terminal.
pub open spec fn non_terminal_data(n: NonTerminalView) -> NonTerminalDataView {
    match n {
        NonTerminalView::UserDefined(d) => d,
        NonTerminalView::Error(d) => d,
        NonTerminalView::Start(d) => d,
    }
}

impl NonTerminal {
    pub fn new(name: &str) -> (r: Self)
        ensures
            r@ == NonTerminalView::UserDefined(fresh_non_terminal(name@)),
    {
        NonTerminal::UserDefined(NonTerminalData::new(name))
    }

    pub fn new_defined(name: &str, defined_at: &Location) -> (r: Self)
        ensures
            r@ == NonTerminalView::UserDefined(NonTerminalDataView { defined_at: seq![defined_at@], ..fresh_non_terminal(name@) }),
    {
        let mut data = NonTerminalData::new(name);
        data.add_defined_at(defined_at);
        NonTerminal::UserDefined(data)
    }

    pub fn new_used(name: &str, used_at: &Location) -> (r: Self)
        ensures
            r@ == NonTerminalView::UserDefined(NonTerminalDataView { used_at: seq![used_at@], ..fresh_non_terminal(name@) }),
    {
        let mut data = NonTerminalData::new(name);
        data.add_used_at(used_at);
        NonTerminal::UserDefined(data)
    }

    pub fn new_error(name: &str) -> (r: Self)
        ensures
            r@ == NonTerminalView::Error(fresh_non_terminal(name@)),
    {
        NonTerminal::Error(NonTerminalData::new(name))
    }

    pub fn new_start(name: &str) -> (r: Self)
        ensures
            r@ == NonTerminalView::Start(fresh_non_terminal(name@)),
    {
        NonTerminal::Start(NonTerminalData::new(name))
    }

    /// A copy of this non terminal.
    pub fn snapshot(&self) -> (r: Self)
        ensures
            r@ == self@,
    {
        match self {
            NonTerminal::UserDefined(d) => NonTerminal::UserDefined(d.snapshot()),
            NonTerminal::Error(d) => NonTerminal::Error(d.snapshot()),
            NonTerminal::Start(d) => NonTerminal::Start(d.snapshot()),
        }
    }

    pub fn name(&self) -> (r: &str)
        requires
            self@ is UserDefined,
        ensures
            r@ == non_terminal_data(self@).name,
    {
        match self {
            NonTerminal::UserDefined(d) => d.name.as_str(),
            _ => vstd::pervasive::unreached(),
        }
    }

    pub fn is_error(&self) -> (r: bool)
        ensures
            r == (self@ is Error),
    {
        match self {
            NonTerminal::Error(_) => true,
            _ => false,
        }
    }

    pub fn is_start(&self) -> (r: bool)
        ensures
            r == (self@ is Start),
    {
        match self {
            NonTerminal::Start(_) => true,
            _ => false,
        }
    }

    pub fn is_unused(&self) -> (r: bool)
        ensures
            r == (non_terminal_data(self@).used_at.len() == 0),
    {
        match self {
            NonTerminal::UserDefined(d) => d.used_at.len() == 0,
            NonTerminal::Error(d) => d.used_at.len() == 0,
            NonTerminal::Start(d) => d.used_at.len() == 0,
        }
    }

    pub fn is_undefined(&self) -> (r: bool)
        ensures
            r == (self@ is UserDefined && non_terminal_data(self@).defined_at.len() == 0),
    {
        match self {
            NonTerminal::UserDefined(d) => d.defined_at.len() == 0,
            _ => false,
        }
    }

    /// Where a non terminal named by the specification was first defined.
    pub fn first_definition(&self) -> (r: Option<Location>)
        ensures
            match r {
                Some(l) => self@ is UserDefined && non_terminal_data(self@).defined_at.len() > 0
                    && l@ == non_terminal_data(self@).defined_at[0],
                None => !(self@ is UserDefined) || non_terminal_data(self@).defined_at.len() == 0,
            },
    {
        match self {
            NonTerminal::UserDefined(d) => {
                if d.defined_at.len() > 0 {
                    proof {
                        assert(locations_view(d.defined_at@)[0] == d.defined_at@[0]@);
                    }
                    Some(d.defined_at[0].snapshot())
                } else {
                    None
                }
            },
            _ => None,
        }
    }

    /// Where this non terminal is used.
    pub fn used_at(&self) -> (r: Vec<Location>)
        ensures
            locations_view(r@) == non_terminal_data(self@).used_at,
    {
        match self {
            NonTerminal::UserDefined(d) => snapshot_all(&d.used_at),
            NonTerminal::Error(d) => snapshot_all(&d.used_at),
            NonTerminal::Start(d) => snapshot_all(&d.used_at),
        }
    }

    pub fn add_defined_at(&mut self, defined_at: &Location)
        requires
            old(self)@ is UserDefined,
        ensures
            final(self)@ == NonTerminalView::UserDefined(NonTerminalDataView {
                defined_at: non_terminal_data(old(self)@).defined_at.push(defined_at@),
                ..non_terminal_data(old(self)@)
            }),
    {
        match self {
            NonTerminal::UserDefined(d) => d.add_defined_at(defined_at),
            _ => {},
        }
    }

    pub fn add_used_at(&mut self, used_at: &Location)
        ensures
            (final(self)@ is UserDefined) == (old(self)@ is UserDefined),
            (final(self)@ is Error) == (old(self)@ is Error),
            (final(self)@ is Start) == (old(self)@ is Start),
            non_terminal_data(final(self)@) == (NonTerminalDataView {
                used_at: non_terminal_data(old(self)@).used_at.push(used_at@),
                ..non_terminal_data(old(self)@)
            }),
    {
        match self {
            NonTerminal::UserDefined(d) => d.add_used_at(used_at),
            NonTerminal::Error(d) => d.add_used_at(used_at),
            NonTerminal::Start(d) => d.add_used_at(used_at),
        }
    }
}

} // verus!
