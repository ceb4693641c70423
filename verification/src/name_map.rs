//! Maps from names to values, iterated in the order of the names.

use vstd::prelude::*;
use vstd::string::StringSliceAdditionalSpecFns;

use crate::order::{bytes_lt, compare_bytes, lemma_bytes_order, Order};

verus! {

/// The bytes of a name, by which names are ordered.
pub open spec fn name_bytes(name: Seq<char>) -> Seq<u8> {
    vstd::utf8::encode_utf8(name)
}

/// The names of `entries` come in strictly increasing order.
pub open spec fn names_ordered<W>(entries: Seq<(Seq<char>, W)>) -> bool {
    forall|i: int, j: int|
        0 <= i < j < entries.len() ==> bytes_lt(name_bytes((#[trigger] entries[i]).0), name_bytes((#[trigger] entries[j]).0))
}

/// `entries` has an entry named `name`.
pub open spec fn has_name<W>(entries: Seq<(Seq<char>, W)>, name: Seq<char>) -> bool {
    exists|i: int| 0 <= i < entries.len() && (#[trigger] entries[i]).0 == name
}

/// Names with the same bytes are the same name.
proof fn lemma_name_bytes_injective(a: Seq<char>, b: Seq<char>)
    ensures
        name_bytes(a) == name_bytes(b) ==> a == b,
{
    vstd::utf8::encode_utf8_decode_utf8(a);
    vstd::utf8::encode_utf8_decode_utf8(b);
}

/// The value of the entry of `entries` named `name`, where it has one.
pub open spec fn entry<W>(entries: Seq<(Seq<char>, W)>, name: Seq<char>) -> W {
    entries[choose|i: int| 0 <= i < entries.len() && (#[trigger] entries[i]).0 == name].1
}

/// In a map whose names are ordered, the entry named `name` is the one at
/// any position that has that name.
pub proof fn lemma_entry_at<W>(entries: Seq<(Seq<char>, W)>, p: int, name: Seq<char>)
    requires
        names_ordered(entries),
        0 <= p < entries.len(),
        entries[p].0 == name,
    ensures
        has_name(entries, name),
        entry(entries, name) == entries[p].1,
{
    let q = choose|i: int| 0 <= i < entries.len() && (#[trigger] entries[i]).0 == name;
    if q != p {
        lemma_bytes_order(name_bytes(entries[p].0), name_bytes(entries[q].0), name_bytes(name));
        if q < p {
            assert(bytes_lt(name_bytes(entries[q].0), name_bytes(entries[p].0)));
        } else {
            assert(bytes_lt(name_bytes(entries[p].0), name_bytes(entries[q].0)));
        }
    }
}

/// In a map whose names are ordered, entries at two positions have two names.
pub proof fn lemma_names_distinct<W>(entries: Seq<(Seq<char>, W)>, p: int, q: int)
    requires
        names_ordered(entries),
        0 <= p < entries.len(),
        0 <= q < entries.len(),
        p != q,
    ensures
        entries[p].0 != entries[q].0,
{
    lemma_bytes_order(name_bytes(entries[p].0), name_bytes(entries[q].0), name_bytes(entries[p].0));
    if p < q {
        assert(bytes_lt(name_bytes(entries[p].0), name_bytes(entries[q].0)));
    } else {
        assert(bytes_lt(name_bytes(entries[q].0), name_bytes(entries[p].0)));
    }
}

/// A map from names to values; its entries are in the order of their names.
#[derive(Debug)]
pub struct NameMap<V> {
    entries: Vec<(String, V)>,
}

impl<V: View> View for NameMap<V> {
    type V = Seq<(Seq<char>, V::V)>;

    closed spec fn view(&self) -> Seq<(Seq<char>, V::V)> {
        self.entries@.map_values(|e: (String, V)| (e.0@, e.1@))
    }
}

impl<V: View> NameMap<V> {
    pub open spec fn wf(&self) -> bool {
        names_ordered(self@)
    }

    pub fn new() -> (r: Self)
        ensures
            r.wf(),
            r@ == Seq::<(Seq<char>, V::V)>::empty(),
    {
        let r = NameMap { entries: Vec::new() };
        proof {
            assert(r@ =~= Seq::<(Seq<char>, V::V)>::empty());
        }
        r
    }

    pub fn len(&self) -> (r: usize)
        ensures
            r == self@.len(),
    {
        self.entries.len()
    }

    /// The position of the first entry whose name does not come before `name`.
    fn lower_bound(&self, name: &str) -> (r: usize)
        requires
            self.wf(),
        ensures
            r <= self@.len(),
            forall|j: int| 0 <= j < r ==> bytes_lt(name_bytes((#[trigger] self@[j]).0), name_bytes(name@)),
            r < self@.len() ==> !bytes_lt(name_bytes(self@[r as int].0), name_bytes(name@)),
    {
        let mut i: usize = 0;
        while i < self.entries.len()
            invariant
                i <= self@.len(),
                self@.len() == self.entries@.len(),
                forall|j: int| 0 <= j < i ==> bytes_lt(name_bytes((#[trigger] self@[j]).0), name_bytes(name@)),
            decreases self@.len() - i,
        {
            proof {
                assert(self@[i as int] == (self.entries@[i as int].0@, self.entries@[i as int].1@));
            }
            match compare_bytes(self.entries[i].0.as_str().as_bytes(), name.as_bytes()) {
                Order::Less => {},
                _ => {
                    return i;
                },
            }
            i = i + 1;
        }
        i
    }

    /// The position of the entry named `name`, if there is one.
    pub fn position(&self, name: &str) -> (r: Option<usize>)
        requires
            self.wf(),
        ensures
            match r {
                Some(p) => p < self@.len() && self@[p as int].0 == name@,
                None => !has_name(self@, name@),
            },
    {
        let p = self.lower_bound(name);
        if p < self.entries.len() {
            proof {
                assert(self@[p as int] == (self.entries@[p as int].0@, self.entries@[p as int].1@));
            }
            match compare_bytes(self.entries[p].0.as_str().as_bytes(), name.as_bytes()) {
                Order::Equal => {
                    proof {
                        lemma_name_bytes_injective(self@[p as int].0, name@);
                    }
                    return Some(p);
                },
                _ => {},
            }
        }
        proof {
            assert forall|i: int| 0 <= i < self@.len() implies (#[trigger] self@[i]).0 != name@ by {
                lemma_bytes_order(name_bytes(self@[i].0), name_bytes(name@), name_bytes(name@));
                if i > p {
                    lemma_bytes_order(name_bytes(self@[p as int].0), name_bytes(self@[i].0), name_bytes(name@));
                    lemma_bytes_order(name_bytes(self@[p as int].0), name_bytes(name@), name_bytes(name@));
                }
            }
        }
        None
    }

    /// The value named `name`, if there is one.
    pub fn get(&self, name: &str) -> (r: Option<&V>)
        requires
            self.wf(),
        ensures
            match r {
                Some(v) => exists|p: int| 0 <= p < self@.len() && self@[p].0 == name@ && self@[p].1 == v@,
                None => !has_name(self@, name@),
            },
    {
        match self.position(name) {
            Some(p) => {
                proof {
                    assert(self@[p as int] == (self.entries@[p as int].0@, self.entries@[p as int].1@));
                }
                Some(&self.entries[p].1)
            },
            None => None,
        }
    }

    /// The value at position `p`.
    pub fn value_at(&self, p: usize) -> (r: &V)
        requires
            p < self@.len(),
        ensures
            r@ == self@[p as int].1,
    {
        proof {
            assert(self@[p as int] == (self.entries@[p as int].0@, self.entries@[p as int].1@));
        }
        &self.entries[p].1
    }

    /// A copy of the name at position `p`.
    pub fn name_at(&self, p: usize) -> (r: String)
        requires
            p < self@.len(),
        ensures
            r@ == self@[p as int].0,
    {
        proof {
            assert(self@[p as int] == (self.entries@[p as int].0@, self.entries@[p as int].1@));
        }
        self.entries[p].0.clone()
    }

    /// Replaces the value at position `p`, giving back the one it held.
    pub fn replace_at(&mut self, p: usize, value: V) -> (r: V)
        requires
            old(self).wf(),
            p < old(self)@.len(),
        ensures
            final(self).wf(),
            r@ == old(self)@[p as int].1,
            final(self)@ == old(self)@.update(p as int, (old(self)@[p as int].0, value@)),
    {
        let ghost v = value@;
        let (name, old_value) = self.entries.remove(p);
        self.entries.insert(p, (name, value));
        proof {
            assert(old(self)@[p as int] == (old(self).entries@[p as int].0@, old(self).entries@[p as int].1@));
            assert(self@ =~= old(self)@.update(p as int, (old(self)@[p as int].0, v)));
            assert forall|i: int, j: int| 0 <= i < j < self@.len() implies bytes_lt(name_bytes((#[trigger] self@[i]).0), name_bytes((#[trigger] self@[j]).0)) by {
                assert(self@[i].0 == old(self)@[i].0 && self@[j].0 == old(self)@[j].0);
            }
        }
        old_value
    }

    /// Maps `name` to `value`; gives back the value it was mapped to before, if any.
    pub fn insert(&mut self, name: &str, value: V) -> (r: Option<V>)
        requires
            old(self).wf(),
        ensures
            final(self).wf(),
            match r {
                Some(o) => exists|p: int| 0 <= p < old(self)@.len() && old(self)@[p].0 == name@ && old(self)@[p].1 == o@
                    && final(self)@ == old(self)@.update(p, (name@, value@)),
                None => !has_name(old(self)@, name@) && exists|p: int| 0 <= p <= old(self)@.len()
                    && final(self)@ == old(self)@.insert(p, (name@, value@)),
            },
    {
        let ghost v = value@;
        let p = self.lower_bound(name);
        if p < self.entries.len() {
            proof {
                assert(self@[p as int] == (self.entries@[p as int].0@, self.entries@[p as int].1@));
            }
            match compare_bytes(self.entries[p].0.as_str().as_bytes(), name.as_bytes()) {
                Order::Equal => {
                    proof {
                        lemma_name_bytes_injective(self@[p as int].0, name@);
                    }
                    let o = self.replace_at(p, value);
                    return Some(o);
                },
                _ => {},
            }
        }
        let ghost old_view = self@;
        proof {
            assert forall|i: int| 0 <= i < old_view.len() implies (#[trigger] old_view[i]).0 != name@ by {
                lemma_bytes_order(name_bytes(old_view[i].0), name_bytes(name@), name_bytes(name@));
                if i > p {
                    lemma_bytes_order(name_bytes(old_view[p as int].0), name_bytes(old_view[i].0), name_bytes(name@));
                    lemma_bytes_order(name_bytes(old_view[p as int].0), name_bytes(name@), name_bytes(name@));
                }
            }
        }
        self.entries.insert(p, (name.to_string(), value));
        proof {
            let nv = old_view.insert(p as int, (name@, v));
            assert(self@ =~= nv) by {
                assert forall|k: int| 0 <= k < self@.len() implies self@[k] == nv[k] by {
                    assert(self@[k] == (self.entries@[k].0@, self.entries@[k].1@));
                    if k < p {
                        assert(old_view[k] == (old(self).entries@[k].0@, old(self).entries@[k].1@));
                    } else if k > p {
                        assert(old_view[k - 1] == (old(self).entries@[k - 1].0@, old(self).entries@[k - 1].1@));
                    }
                }
            }
            assert forall|i: int, j: int| 0 <= i < j < nv.len() implies bytes_lt(name_bytes((#[trigger] nv[i]).0), name_bytes((#[trigger] nv[j]).0)) by {
                if j == p {
                    assert(nv[i] == old_view[i]);
                } else if i == p {
                    assert(nv[j] == old_view[j - 1]);
                    lemma_bytes_order(name_bytes(old_view[p as int].0), name_bytes(name@), name_bytes(name@));
                    lemma_name_bytes_injective(old_view[p as int].0, name@);
                    lemma_bytes_order(name_bytes(name@), name_bytes(old_view[p as int].0), name_bytes(old_view[j - 1].0));
                } else if j < p {
                    assert(nv[i] == old_view[i] && nv[j] == old_view[j]);
                } else if i > p {
                    assert(nv[i] == old_view[i - 1] && nv[j] == old_view[j - 1]);
                } else {
                    assert(nv[i] == old_view[i] && nv[j] == old_view[j - 1]);
                }
            }
        }
        None
    }
}

} // verus!
