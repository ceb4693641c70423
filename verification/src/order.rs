//! The lexicographic order of byte strings, which is the order of `String`s.

use vstd::prelude::*;

verus! {

/// The outcome of comparing two values.
#[derive(Debug, Clone, Copy, PartialEq, Eq, Structural)]
pub enum Order {
    Less,
    Equal,
    Greater,
}

/// The first position at or after `i` where `a` and `b` differ, or where one
/// of them ends.
pub open spec fn first_difference(a: Seq<u8>, b: Seq<u8>, i: nat) -> nat
    decreases a.len() - i,
{
    if i >= a.len() || i >= b.len() || a[i as int] != b[i as int] {
        i
    } else {
        first_difference(a, b, i + 1)
    }
}

/// `a` comes strictly before `b` in lexicographic byte order.
pub open spec fn bytes_lt(a: Seq<u8>, b: Seq<u8>) -> bool {
    let d = first_difference(a, b, 0);
    if d < a.len() && d < b.len() {
        a[d as int] < b[d as int]
    } else {
        a.len() < b.len()
    }
}

proof fn lemma_first_difference(a: Seq<u8>, b: Seq<u8>, i: nat)
    requires
        i <= a.len(),
        i <= b.len(),
    ensures
        i <= first_difference(a, b, i) <= a.len(),
        first_difference(a, b, i) <= b.len(),
        forall|j: int| i <= j < first_difference(a, b, i) ==> a[j] == b[j],
        first_difference(a, b, i) < a.len() && first_difference(a, b, i) < b.len() ==> a[first_difference(a, b, i) as int] != b[first_difference(a, b, i) as int],
    decreases a.len() - i,
{
    if !(i >= a.len() || i >= b.len() || a[i as int] != b[i as int]) {
        lemma_first_difference(a, b, i + 1);
    }
}

/// The first difference is the unique position up to which the two agree and
/// at which they differ or one of them ends.
proof fn lemma_difference_at(a: Seq<u8>, b: Seq<u8>, d: nat)
    requires
        d <= a.len(),
        d <= b.len(),
        forall|j: int| 0 <= j < d ==> a[j] == b[j],
        d == a.len() || d == b.len() || a[d as int] != b[d as int],
    ensures
        first_difference(a, b, 0) == d,
{
    lemma_first_difference(a, b, 0);
    let r = first_difference(a, b, 0);
    if r < d {
        assert(a[r as int] == b[r as int]);
    } else if r > d {
        assert(a[d as int] == b[d as int]);
    }
}

/// Lexicographic byte order is a strict total order.
pub proof fn lemma_bytes_order(a: Seq<u8>, b: Seq<u8>, c: Seq<u8>)
    ensures
        !bytes_lt(a, a),
        bytes_lt(a, b) ==> !bytes_lt(b, a),
        a != b ==> bytes_lt(a, b) || bytes_lt(b, a),
        bytes_lt(a, b) && bytes_lt(b, c) ==> bytes_lt(a, c),
{
    lemma_first_difference(a, a, 0);
    lemma_first_difference(a, b, 0);
    lemma_first_difference(b, a, 0);
    lemma_first_difference(b, c, 0);
    lemma_first_difference(a, c, 0);
    let dab = first_difference(a, b, 0);
    lemma_difference_at(b, a, dab);
    if a != b && !bytes_lt(a, b) {
        if !(dab < a.len() && dab < b.len()) && a.len() == b.len() {
            assert(a =~= b);
        }
    }
    if bytes_lt(a, b) && bytes_lt(b, c) {
        let dbc = first_difference(b, c, 0);
        if dab < dbc {
            lemma_difference_at(a, c, dab);
        } else if dbc < dab {
            lemma_difference_at(a, c, dbc);
        } else {
            lemma_difference_at(a, c, dab);
        }
    }
}

/// Compares `a` and `b` in lexicographic byte order.
pub fn compare_bytes(a: &[u8], b: &[u8]) -> (r: Order)
    ensures
        (r == Order::Less) == bytes_lt(a@, b@),
        (r == Order::Equal) == (a@ == b@),
        (r == Order::Greater) == bytes_lt(b@, a@),
{
    proof {
        lemma_bytes_order(a@, b@, a@);
        lemma_first_difference(a@, b@, 0);
    }
    let mut i: usize = 0;
    while i < a.len() && i < b.len() && a[i] == b[i]
        invariant
            i <= a@.len(),
            i <= b@.len(),
            forall|j: int| 0 <= j < i ==> a@[j] == b@[j],
        decreases a@.len() - i,
    {
        i = i + 1;
    }
    proof {
        lemma_difference_at(a@, b@, i as nat);
        lemma_difference_at(b@, a@, i as nat);
    }
    if i < a.len() && i < b.len() {
        if a[i] < b[i] {
            Order::Less
        } else {
            Order::Greater
        }
    } else if a.len() < b.len() {
        Order::Less
    } else if b.len() < a.len() {
        Order::Greater
    } else {
        proof {
            assert(a@ =~= b@);
        }
        Order::Equal
    }
}

} // verus!
