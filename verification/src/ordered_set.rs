//! Ordered sets of numbers (parser states and token tags).

use std::collections::BTreeSet;
use vstd::prelude::*;
use vstd::string::StringExecFns;
use vstd::std_specs::cmp::OrdSpec;
use vstd::std_specs::iter::IteratorSpec;

use crate::text::{join_numbers, numbers_joined};

verus! {

broadcast use vstd::std_specs::btree::group_btree_axioms, vstd::laws_cmp::group_laws_cmp;

/// A set of numbers that is iterated in increasing order.
#[derive(Debug)]
pub struct OrderedSet(BTreeSet<u32>);

impl View for OrderedSet {
    type V = Set<u32>;

    closed spec fn view(&self) -> Set<u32> {
        self.0@
    }
}

/// `s` is in strictly increasing order.
pub open spec fn increasing(s: Seq<u32>) -> bool {
    forall|i: int, j: int| 0 <= i < j < s.len() ==> s[i] < s[j]
}

/// The keys that a `BTreeSet` of numbers yields come in increasing order.
proof fn lemma_increasing_keys(keys: Seq<&u32>)
    requires
        vstd::std_specs::btree::increasing_seq(keys),
    ensures
        forall|i: int, j: int| 0 <= i < j < keys.len() ==> *keys[i] < *keys[j],
{
    assert(vstd::laws_cmp::obeys_cmp::<u32>());
    assert(vstd::laws_cmp::obeys_cmp::<&u32>());
    assert forall|i: int, j: int| 0 <= i < j < keys.len() implies *keys[i] < *keys[j] by {
        assert(OrdSpec::cmp_spec(&keys[i], &keys[j]) is Less);
    }
}

/// Every set of numbers is finite: there are finitely many numbers.
pub proof fn lemma_number_set_finite(s: Set<u32>)
    ensures
        s.finite(),
{
    <u32 as vstd::set_lib::FiniteFull>::full_properties();
    vstd::set::axiom_set_intersect_finite(Set::<u32>::full(), s);
    assert(s =~= Set::<u32>::full().intersect(s));
}

impl OrderedSet {
    pub fn new() -> (r: Self)
        ensures
            r@ == Set::<u32>::empty(),
            r@.finite(),
    {
        OrderedSet(BTreeSet::new())
    }

    pub fn len(&self) -> (r: usize)
        ensures
            r == self@.len(),
    {
        self.0.len()
    }

    pub fn is_empty(&self) -> (r: bool)
        ensures
            r == (self@ == Set::<u32>::empty()),
    {
        let r = self.0.is_empty();
        proof {
            if !r {
                assert(!self@.is_empty());
                let x = self@.choose();
                assert(!Set::<u32>::empty().contains(x));
            }
        }
        r
    }

    pub fn contains(&self, item: &u32) -> (r: bool)
        ensures
            r == self@.contains(*item),
    {
        self.0.contains(item)
    }

    /// Adds `item`; says whether the set lacked it.
    pub fn insert(&mut self, item: u32) -> (r: bool)
        ensures
            final(self)@ == old(self)@.insert(item),
            r == !old(self)@.contains(item),
            final(self)@.finite(),
            final(self)@.len() == old(self)@.len() + if r { 1nat } else { 0nat },
    {
        proof {
            lemma_number_set_finite(self@);
        }
        self.0.insert(item)
    }

    /// The members of the set in increasing order.
    pub fn iter(&self) -> (r: Vec<u32>)
        ensures
            r@.to_set() == self@,
            increasing(r@),
    {
        let mut r: Vec<u32> = Vec::new();
        let ghost keys = vstd::std_specs::btree::spec_btree_keys_iter(&self.0).remaining();
        for x in it: self.0.iter()
            invariant
                it.seq() == keys,
                r@.len() == it.index(),
                r@ == keys.take(it.index()).map_values(|y: &u32| *y),
        {
            r.push(*x);
            proof {
                assert(keys.take(it.index() + 1).map_values(|y: &u32| *y) =~= r@);
            }
        }
        proof {
            assert(keys.take(r@.len() as int) =~= keys);
            assert(keys.map_values(|y: &u32| *y) =~= keys.unref());
            lemma_increasing_keys(keys);
        }
        r
    }
}

impl OrderedSet {
    /// The members of the set in increasing order, separated by commas.
    pub fn to_string(&self) -> (r: String)
        ensures
            exists|q: Seq<u32>| q.to_set() == self@ && increasing(q) && r@ == numbers_joined(q, ", "@),
    {
        let members = self.iter();
        join_numbers(&members, ", ")
    }
}

/// The set written as `Set{..}`, its members in increasing order separated by commas.
pub fn format_set(set: &OrderedSet) -> (r: String)
    ensures
        exists|q: Seq<u32>| q.to_set() == set@ && increasing(q) && r@ == "Set{"@ + numbers_joined(q, ", "@) + "}"@,
{
    let members = set.iter();
    let mut r = String::from_str("Set{");
    r.append(join_numbers(&members, ", ").as_str());
    r.append("}");
    r
}

} // verus!
