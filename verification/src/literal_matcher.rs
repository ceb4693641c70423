//! A trie that finds the longest literal lexeme at the start of a text.

use vstd::prelude::*;
use vstd::string::StringSliceAdditionalSpecFns;

use crate::error::LexanError;

verus! {

/// The bytes of each literal lexeme, paired with its tag.
pub open spec fn lexeme_bytes(lexemes: Seq<(u32, &str)>) -> Seq<(u32, Seq<u8>)> {
    lexemes.map_values(|l: (u32, &str)| (l.0, l.1.spec_bytes()))
}

/// The `i`th lexeme is acceptable given those before it: its pattern is not
/// empty and no earlier lexeme has the same pattern.
pub open spec fn literal_ok_at(ls: Seq<(u32, Seq<u8>)>, i: int) -> bool {
    &&& ls[i].1.len() > 0
    &&& forall|j: int| 0 <= j < i ==> #[trigger] ls[j].1 != ls[i].1
}

/// Map from each pattern to its tag.
pub open spec fn pattern_map(ls: Seq<(u32, Seq<u8>)>) -> Map<Seq<u8>, u32>
    decreases ls.len(),
{
    if ls.len() == 0 {
        Map::empty()
    } else {
        pattern_map(ls.drop_last()).insert(ls.last().1, ls.last().0)
    }
}

/// The longest prefix of `text` of at most `n` bytes that is a pattern of `m`,
/// as its tag and its length.
pub open spec fn longest_upto(m: Map<Seq<u8>, u32>, text: Seq<u8>, n: nat) -> Option<(u32, nat)>
    decreases n,
{
    if n == 0 {
        None
    } else if m.contains_key(text.take(n as int)) {
        Some((m[text.take(n as int)], n))
    } else {
        longest_upto(m, text, (n - 1) as nat)
    }
}

/// The longest prefix of `text` that is a pattern of `m`.
pub open spec fn longest_prefix_match(m: Map<Seq<u8>, u32>, text: Seq<u8>) -> Option<(u32, nat)> {
    longest_upto(m, text, text.len())
}

/// Some non-empty prefix of `text` is a pattern of `m`.
pub open spec fn has_prefix_match(m: Map<Seq<u8>, u32>, text: Seq<u8>) -> bool {
    exists|n: int| 1 <= n <= text.len() && #[trigger] m.contains_key(text.take(n))
}

/// There is a longest prefix of at most `n` bytes that is a pattern exactly
/// when some non-empty prefix of at most `n` bytes is one.
proof fn lemma_longest_upto_some(m: Map<Seq<u8>, u32>, text: Seq<u8>, n: nat)
    ensures
        longest_upto(m, text, n) is Some <==> exists|k: int| 1 <= k <= n && #[trigger] m.contains_key(text.take(k)),
    decreases n,
{
    if n > 0 {
        lemma_longest_upto_some(m, text, (n - 1) as nat);
        if m.contains_key(text.take(n as int)) {
            assert(m.contains_key(text.take(n as int)));
        }
    }
}

/// Some lexeme is a prefix of a text exactly when a longest such prefix
/// exists: a literal matcher matches a text exactly where its longest match
/// finds something.
pub proof fn law_matches_iff_longest_match(m: Map<Seq<u8>, u32>, text: Seq<u8>)
    ensures
        has_prefix_match(m, text) <==> longest_prefix_match(m, text) is Some,
{
    lemma_longest_upto_some(m, text, text.len());
}

/// The first child of a node under byte `b`.
pub open spec fn tails_child(tails: Seq<(u8, usize)>, b: u8) -> Option<usize>
    decreases tails.len(),
{
    if tails.len() == 0 {
        None
    } else if tails[0].0 == b {
        Some(tails[0].1)
    } else {
        tails_child(tails.drop_first(), b)
    }
}

/// Matches literal lexemes: a trie whose nodes are held in vectors and refer
/// to their children by index. Node 0 is the root, for the empty prefix.
pub struct LiteralMatcher {
    /// The tag of the lexeme that ends at each node, if any.
    tags: Vec<Option<u32>>,
    /// The length of the prefix that each node stands for.
    lengths: Vec<usize>,
    /// The children of each node, by their next byte.
    tails: Vec<Vec<(u8, usize)>>,
    /// The prefix that each node stands for.
    paths: Ghost<Seq<Seq<u8>>>,
    /// The node that stands for each prefix of a lexeme.
    index_of: Ghost<Map<Seq<u8>, int>>,
    /// The lexemes: each pattern with its tag.
    patterns: Ghost<Map<Seq<u8>, u32>>,
}

impl View for LiteralMatcher {
    type V = Map<Seq<u8>, u32>;

    closed spec fn view(&self) -> Map<Seq<u8>, u32> {
        self.patterns@
    }
}

proof fn lemma_tails_child_push(tails: Seq<(u8, usize)>, b: u8, j: usize, c: u8)
    requires
        tails_child(tails, b) is None,
    ensures
        tails_child(tails.push((b, j)), c) == if c == b {
            Some(j)
        } else {
            tails_child(tails, c)
        },
    decreases tails.len(),
{
    if tails.len() > 0 {
        lemma_tails_child_push(tails.drop_first(), b, j, c);
        assert(tails.push((b, j)).drop_first() =~= tails.drop_first().push((b, j)));
    } else {
        assert(tails.push((b, j)).drop_first() =~= tails);
    }
}

proof fn lemma_tails_child_in(tails: Seq<(u8, usize)>, b: u8)
    requires
        tails_child(tails, b) is Some,
    ensures
        exists|k: int| 0 <= k < tails.len() && #[trigger] tails[k] == (b, tails_child(tails, b)->0),
    decreases tails.len(),
{
    if tails[0].0 != b {
        lemma_tails_child_in(tails.drop_first(), b);
        let k = choose|k: int| 0 <= k < tails.len() - 1 && #[trigger] tails.drop_first()[k] == (b, tails_child(tails, b)->0);
        assert(tails[k + 1] == (b, tails_child(tails, b)->0));
    } else {
        assert(tails[0] == (b, tails_child(tails, b)->0));
    }
}

proof fn lemma_longest_upto_skip(m: Map<Seq<u8>, u32>, text: Seq<u8>, k: nat, n: nat)
    requires
        k <= n,
        forall|j: int| k < j <= n ==> !#[trigger] m.contains_key(text.take(j)),
    ensures
        longest_upto(m, text, n) == longest_upto(m, text, k),
    decreases n,
{
    if n > k {
        assert(!m.contains_key(text.take(n as int)));
        lemma_longest_upto_skip(m, text, k, (n - 1) as nat);
    }
}

proof fn lemma_longest_upto_none(m: Map<Seq<u8>, u32>, text: Seq<u8>, n: nat)
    ensures
        longest_upto(m, text, n) is None <==> forall|j: int| 1 <= j <= n ==> !#[trigger] m.contains_key(text.take(j)),
    decreases n,
{
    if n > 0 {
        lemma_longest_upto_none(m, text, (n - 1) as nat);
    }
}

pub proof fn lemma_longest_upto_facts(m: Map<Seq<u8>, u32>, text: Seq<u8>, n: nat)
    ensures
        longest_upto(m, text, n) matches Some((t, l)) ==> 1 <= l <= n && m.contains_key(text.take(l as int)) && m[text.take(l as int)] == t,
    decreases n,
{
    if n > 0 {
        lemma_longest_upto_facts(m, text, (n - 1) as nat);
    }
}

pub proof fn lemma_pattern_map_facts(ls: Seq<(u32, Seq<u8>)>)
    requires
        forall|i: int| 0 <= i < ls.len() ==> literal_ok_at(ls, i),
    ensures
        forall|i: int| 0 <= i < ls.len() ==> #[trigger] pattern_map(ls).contains_key(ls[i].1) && pattern_map(ls)[ls[i].1] == ls[i].0,
        forall|p: Seq<u8>| #[trigger] pattern_map(ls).contains_key(p) ==> exists|i: int| 0 <= i < ls.len() && ls[i].1 == p,
    decreases ls.len(),
{
    if ls.len() > 0 {
        let t = ls.drop_last();
        assert forall|i: int| 0 <= i < t.len() implies literal_ok_at(t, i) by {
            assert(literal_ok_at(ls, i));
            assert forall|j: int| 0 <= j < i implies #[trigger] t[j].1 != t[i].1 by {
                assert(ls[j].1 != ls[i].1);
            }
        }
        lemma_pattern_map_facts(t);
        assert(literal_ok_at(ls, ls.len() - 1));
        assert forall|i: int| 0 <= i < ls.len() implies #[trigger] pattern_map(ls).contains_key(ls[i].1) && pattern_map(ls)[ls[i].1] == ls[i].0 by {
            if i < ls.len() - 1 {
                assert(t[i] == ls[i]);
                assert(pattern_map(t).contains_key(t[i].1));
                assert(ls[i].1 != ls[ls.len() - 1].1);
            }
        }
        assert forall|p: Seq<u8>| #[trigger] pattern_map(ls).contains_key(p) implies exists|i: int| 0 <= i < ls.len() && ls[i].1 == p by {
            if p != ls.last().1 {
                assert(pattern_map(t).contains_key(p));
                let i = choose|i: int| 0 <= i < t.len() && t[i].1 == p;
                assert(ls[i].1 == p);
            } else {
                assert(ls[ls.len() - 1].1 == p);
            }
        }
    }
}

/// One more lexeme: the map grows by it, and it was already there exactly when
/// an earlier lexeme has the same pattern.
proof fn lemma_pattern_map_step(ls: Seq<(u32, Seq<u8>)>, i: int)
    requires
        0 <= i < ls.len(),
        forall|j: int| 0 <= j < i ==> literal_ok_at(ls, j),
    ensures
        pattern_map(ls.take(i + 1)) == pattern_map(ls.take(i)).insert(ls[i].1, ls[i].0),
        pattern_map(ls.take(i)).contains_key(ls[i].1) <==> exists|jj: int| 0 <= jj < i && #[trigger] ls[jj].1 == ls[i].1,
{
    let t = ls.take(i);
    assert(ls.take(i + 1).drop_last() =~= t);
    assert forall|j: int| 0 <= j < i implies literal_ok_at(t, j) by {
        assert(literal_ok_at(ls, j));
        assert forall|jj: int| 0 <= jj < j implies #[trigger] t[jj].1 != t[j].1 by {
            assert(ls[jj].1 != ls[j].1);
        }
    }
    lemma_pattern_map_facts(t);
    if pattern_map(t).contains_key(ls[i].1) {
        let jj = choose|jj: int| 0 <= jj < t.len() && t[jj].1 == ls[i].1;
        assert(ls[jj].1 == ls[i].1);
    }
    if exists|jj: int| 0 <= jj < i && #[trigger] ls[jj].1 == ls[i].1 {
        let jj = choose|jj: int| 0 <= jj < i && #[trigger] ls[jj].1 == ls[i].1;
        assert(pattern_map(t).contains_key(t[jj].1));
    }
}

/// Child of a node under byte `b`.
fn find_child(tails: &Vec<(u8, usize)>, b: u8) -> (r: Option<usize>)
    ensures
        r == tails_child(tails@, b),
{
    let mut k: usize = 0;
    assert(tails@.skip(0) =~= tails@);
    while k < tails.len()
        invariant
            k <= tails@.len(),
            tails_child(tails@, b) == tails_child(tails@.skip(k as int), b),
        decreases tails@.len() - k,
    {
        let ghost rest = tails@.skip(k as int);
        assert(rest.drop_first() =~= tails@.skip(k + 1));
        if tails[k].0 == b {
            return Some(tails[k].1);
        }
        k = k + 1;
    }
    None
}

impl LiteralMatcher {
    /// The trie is well formed and holds exactly the patterns of its view.
    pub closed spec fn wf(&self) -> bool {
        let paths = self.paths@;
        let index_of = self.index_of@;
        let n = self.tags@.len();
        &&& n >= 1
        &&& self.lengths@.len() == n
        &&& self.tails@.len() == n
        &&& paths.len() == n
        &&& paths[0] == Seq::<u8>::empty()
        &&& self.tags@[0] is None
        &&& forall|i: int| 0 <= i < n ==> #[trigger] index_of.contains_key(paths[i]) && index_of[paths[i]] == i
        &&& forall|q: Seq<u8>| #[trigger] index_of.contains_key(q) ==> 0 <= index_of[q] < n && paths[index_of[q]] == q
        &&& forall|q: Seq<u8>| #[trigger] index_of.contains_key(q) && q.len() > 0 ==> index_of.contains_key(q.drop_last()) && tails_child(self.tails@[index_of[q.drop_last()]]@, q.last()) == Some(index_of[q] as usize)
        &&& forall|i: int, k: int| 0 <= i < n && 0 <= k < self.tails@[i]@.len() ==> {
            let e = #[trigger] self.tails@[i]@[k];
            e.1 < n && paths[e.1 as int] == paths[i].push(e.0)
        }
        &&& forall|i: int| 0 <= i < n ==> #[trigger] self.lengths@[i] == paths[i].len()
        &&& forall|i: int| 0 <= i < n ==> #[trigger] self.tags@[i] == if self.patterns@.contains_key(paths[i]) {
            Some(self.patterns@[paths[i]])
        } else {
            None
        }
        &&& forall|p: Seq<u8>, l: int| #[trigger] self.patterns@.contains_key(p) && 0 <= l <= p.len() ==> #[trigger] index_of.contains_key(p.take(l))
        &&& !self.patterns@.contains_key(Seq::<u8>::empty())
    }

    fn empty() -> (r: Self)
        ensures
            r.wf(),
            r@ == Map::<Seq<u8>, u32>::empty(),
    {
        let mut tails: Vec<Vec<(u8, usize)>> = Vec::new();
        tails.push(Vec::new());
        let ghost paths = seq![Seq::<u8>::empty()];
        let ghost index_of = map![Seq::<u8>::empty() => 0int];
        let ghost patterns = Map::<Seq<u8>, u32>::empty();
        let r = LiteralMatcher {
            tags: vec![None],
            lengths: vec![0],
            tails,
            paths: Ghost(paths),
            index_of: Ghost(index_of),
            patterns: Ghost(patterns),
        };
        assert(r.tails@[0]@.len() == 0);
        r
    }

    /// Adds `pattern` with `tag`; fails, leaving the matcher as it was, where
    /// the pattern is already present.
    fn add(&mut self, tag: u32, pattern: &[u8]) -> (r: Result<(), ()>)
        requires
            old(self).wf(),
            pattern@.len() > 0,
        ensures
            final(self).wf(),
            r is Err <==> old(self)@.contains_key(pattern@),
            r is Ok ==> final(self)@ == old(self)@.insert(pattern@, tag),
            r is Err ==> final(self)@ == old(self)@,
    {
        let ghost p = pattern@;
        let mut cur: usize = 0;
        let mut k: usize = 0;
        proof {
            assert(p.take(0) =~= Seq::<u8>::empty());
        }
        while k < pattern.len()
            invariant
                self.wf(),
                self@ == old(self)@,
                p == pattern@,
                p.len() > 0,
                k <= p.len(),
                cur < self.tags@.len(),
                self.paths@[cur as int] == p.take(k as int),
                forall|l: int| 0 <= l <= k ==> #[trigger] self.index_of@.contains_key(p.take(l)),
                k < p.len() ==> !self@.contains_key(p) || self.index_of@.contains_key(p.take(k + 1)),
            decreases p.len() - k,
        {
            let b = pattern[k];
            let ghost q = p.take(k + 1);
            assert(q.drop_last() =~= p.take(k as int));
            assert(q.last() == b);
            match find_child(&self.tails[cur], b) {
                Some(j) => {
                    proof {
                        lemma_tails_child_in(self.tails@[cur as int]@, b);
                        let kk = choose|kk: int| 0 <= kk < self.tails@[cur as int]@.len() && #[trigger] self.tails@[cur as int]@[kk] == (b, j);
                        assert(self.tails@[cur as int]@[kk] == (b, j));
                        assert(self.paths@[j as int] == p.take(k as int).push(b));
                        assert(p.take(k as int).push(b) =~= q);
                    }
                    cur = j;
                },
                None => {
                    let j = self.tags.len();
                    proof {
                        // no node for `q` yet, so `q` is no prefix of any pattern
                        if self.index_of@.contains_key(q) {
                            assert(self.index_of@[q.drop_last()] == cur);
                        }
                    }
                    let ghost old_self = *self;
                    self.tags.push(None);
                    self.lengths.push(k + 1);
                    self.tails.push(Vec::new());
                    self.tails[cur].push((b, j));
                    proof {
                        self.paths@ = self.paths@.push(q);
                        self.index_of@ = self.index_of@.insert(q, j as int);
                    }
                    proof {
                        let ot = old_self.tails@[cur as int]@;
                        assert forall|c: u8| #[trigger] tails_child(self.tails@[cur as int]@, c) == if c == b { Some(j) } else { tails_child(ot, c) } by {
                            lemma_tails_child_push(ot, b, j, c);
                        }
                        let n = self.tags@.len();
                        assert forall|i: int| 0 <= i < n implies #[trigger] self.index_of@.contains_key(self.paths@[i]) && self.index_of@[self.paths@[i]] == i by {
                            if i < j {
                                assert(old_self.index_of@.contains_key(old_self.paths@[i]));
                                assert(self.paths@[i] != q);
                            }
                        }
                        assert forall|qq: Seq<u8>| #[trigger] self.index_of@.contains_key(qq) && qq.len() > 0 implies self.index_of@.contains_key(qq.drop_last()) && tails_child(self.tails@[self.index_of@[qq.drop_last()]]@, qq.last()) == Some(self.index_of@[qq] as usize) by {
                            if qq == q {
                                assert(q.drop_last() == old_self.paths@[cur as int]);
                                assert(old_self.index_of@.contains_key(old_self.paths@[cur as int]));
                                assert(self.index_of@[q.drop_last()] == cur as int);
                                assert(tails_child(self.tails@[cur as int]@, b) == Some(j));
                            } else {
                                assert(old_self.index_of@.contains_key(qq));
                                assert(old_self.index_of@.contains_key(qq.drop_last()));
                                let par = old_self.index_of@[qq.drop_last()];
                                assert(qq.drop_last() != q);
                                assert(self.index_of@[qq.drop_last()] == par);
                                assert(self.index_of@[qq] == old_self.index_of@[qq]);
                                if par != cur {
                                    assert(self.tails@[par] == old_self.tails@[par]);
                                }
                                if par == cur {
                                    assert(qq.last() != b) by {
                                        if qq.last() == b {
                                            assert(qq =~= qq.drop_last().push(qq.last()));
                                            assert(q =~= q.drop_last().push(q.last()));
                                        }
                                    }
                                }
                            }
                        }
                        assert forall|i: int, kk: int| 0 <= i < n && 0 <= kk < self.tails@[i]@.len() implies {
                            let e = #[trigger] self.tails@[i]@[kk];
                            e.1 < n && self.paths@[e.1 as int] == self.paths@[i].push(e.0)
                        } by {
                            if i < j && i != cur {
                                assert(self.tails@[i] == old_self.tails@[i]);
                                let e = old_self.tails@[i]@[kk];
                            } else if i == cur {
                                if kk < ot.len() {
                                    assert(self.tails@[i]@[kk] == ot[kk]);
                                    let e = old_self.tails@[i]@[kk];
                                } else {
                                    assert(self.tails@[i]@[kk] == (b, j));
                                    assert(p.take(k as int).push(b) =~= q);
                                }
                            }
                        }
                        assert forall|i: int| 0 <= i < n implies #[trigger] self.tags@[i] == if self.patterns@.contains_key(self.paths@[i]) {
                            Some(self.patterns@[self.paths@[i]])
                        } else {
                            None
                        } by {
                            if i == j {
                                // `q` is no pattern: it has no node in the old trie
                                if self.patterns@.contains_key(q) {
                                    assert(q.take(q.len() as int) =~= q);
                                    assert(old_self.index_of@.contains_key(q.take(q.len() as int)));
                                }
                            }
                        }
                        assert(self.tails@[0]@ == old_self.tails@[0]@ || cur == 0);
                        assert forall|l: int| 0 <= l <= k + 1 implies #[trigger] self.index_of@.contains_key(p.take(l)) by {
                            if l == k + 1 {
                                assert(p.take(l) =~= q);
                            }
                        }
                        assert(self.paths@[j as int] == p.take(k + 1));
                    }
                    cur = j;
                },
            }
            k = k + 1;
            proof {
                if k < p.len() && self@.contains_key(p) {
                    assert(self.index_of@.contains_key(p.take(k + 1)));
                }
            }
        }
        proof {
            assert(p.take(p.len() as int) =~= p);
        }
        if self.tags[cur].is_some() {
            return Err(());
        }
        let ghost old_self = *self;
        self.tags.set(cur, Some(tag));
        proof {
            self.patterns@ = self.patterns@.insert(p, tag);
        }
        proof {
            let n = self.tags@.len();
            assert forall|i: int| 0 <= i < n implies #[trigger] self.tags@[i] == if self.patterns@.contains_key(self.paths@[i]) {
                Some(self.patterns@[self.paths@[i]])
            } else {
                None
            } by {
                if i != cur {
                    assert(old_self.index_of@.contains_key(old_self.paths@[i]));
                    assert(old_self.index_of@.contains_key(old_self.paths@[cur as int]));
                    assert(self.paths@[i] != p);
                }
            }
            assert forall|pp: Seq<u8>, l: int| #[trigger] self.patterns@.contains_key(pp) && 0 <= l <= pp.len() implies #[trigger] self.index_of@.contains_key(pp.take(l)) by {
                if pp == p {
                } else {
                    assert(old_self.patterns@.contains_key(pp));
                }
            }
            assert(cur != 0);
        }
        Ok(())
    }

    /// Builds the matcher for `lexemes`, each a tag with its literal text.
    /// Fails on the first lexeme whose text is empty or repeats an earlier one.
    pub fn new(lexemes: &[(u32, &str)]) -> (r: Result<LiteralMatcher, LexanError>)
        ensures
            r is Ok <==> forall|i: int| 0 <= i < lexemes@.len() ==> literal_ok_at(lexeme_bytes(lexemes@), i),
            r matches Ok(m) ==> m.wf() && m@ == pattern_map(lexeme_bytes(lexemes@)),
            r matches Err(e) ==> exists|i: int| #![trigger lexemes@[i]]
                0 <= i < lexemes@.len() && !literal_ok_at(lexeme_bytes(lexemes@), i)
                && (forall|j: int| 0 <= j < i ==> literal_ok_at(lexeme_bytes(lexemes@), j))
                && if lexemes@[i].1@.len() == 0 {
                    e == LexanError::EmptyPattern(Some(lexemes@[i].0))
                } else {
                    e matches LexanError::DuplicatePattern(s) && s@ == lexemes@[i].1@
                },
    {
        let ghost ls = lexeme_bytes(lexemes@);
        let mut m = LiteralMatcher::empty();
        let mut i: usize = 0;
        while i < lexemes.len()
            invariant
                i <= lexemes@.len(),
                ls == lexeme_bytes(lexemes@),
                m.wf(),
                forall|j: int| 0 <= j < i ==> literal_ok_at(ls, j),
                m@ == pattern_map(ls.take(i as int)),
            decreases lexemes@.len() - i,
        {
            let (tag, pattern) = lexemes[i];
            let bytes = pattern.as_bytes();
            proof {
                assert(ls[i as int] == (tag, bytes@));
                lemma_pattern_map_step(ls, i as int);
            }
            if bytes.len() == 0 {
                proof {
                    crate::text::lemma_bytes_empty(pattern);
                    assert(!literal_ok_at(ls, i as int));
                }
                return Err(LexanError::EmptyPattern(Some(tag)));
            }
            match m.add(tag, bytes) {
                Ok(()) => {
                    proof {
                        assert forall|jj: int| 0 <= jj < i implies #[trigger] ls[jj].1 != ls[i as int].1 by {}
                        assert(literal_ok_at(ls, i as int));
                    }
                },
                Err(()) => {
                    proof {
                        let jj = choose|jj: int| 0 <= jj < i && #[trigger] ls[jj].1 == ls[i as int].1;
                        assert(ls[jj].1 == ls[i as int].1);
                        assert(!literal_ok_at(ls, i as int));
                        crate::text::lemma_bytes_empty(pattern);
                    }
                    return Err(LexanError::DuplicatePattern(pattern.to_string()));
                },
            }
            i = i + 1;
        }
        proof {
            assert(ls.take(lexemes@.len() as int) =~= ls);
        }
        Ok(m)
    }

    /// The tag and length of the longest lexeme at the start of `string`.
    pub fn longest_match(&self, string: &str) -> (r: Option<(u32, usize)>)
        requires
            self.wf(),
        ensures
            r == match longest_prefix_match(self@, string.spec_bytes()) {
                Some((t, l)) => Some((t, l as usize)),
                None => None,
            },
    {
        self.longest_match_bytes(string.as_bytes())
    }

    /// The tag and length of the longest lexeme at the start of `bytes`.
    pub fn longest_match_bytes(&self, bytes: &[u8]) -> (r: Option<(u32, usize)>)
        requires
            self.wf(),
        ensures
            r == match longest_prefix_match(self@, bytes@) {
                Some((t, l)) => Some((t, l as usize)),
                None => None,
            },
    {
        let ghost text = bytes@;
        let mut rval: Option<(u32, usize)> = None;
        let mut cur: usize = 0;
        let mut k: usize = 0;
        proof {
            assert(text.take(0) =~= Seq::<u8>::empty());
        }
        while k < bytes.len()
            invariant
                self.wf(),
                text == bytes@,
                k <= text.len(),
                cur < self.tags@.len(),
                self.paths@[cur as int] == text.take(k as int),
                rval == match longest_upto(self@, text, k as nat) {
                    Some((t, l)) => Some((t, l as usize)),
                    None => None,
                },
            decreases text.len() - k,
        {
            let b = bytes[k];
            let ghost q = text.take(k + 1);
            assert(q.drop_last() =~= text.take(k as int));
            match find_child(&self.tails[cur], b) {
                None => {
                    proof {
                        assert forall|j: int| k < j <= text.len() implies !#[trigger] self@.contains_key(text.take(j)) by {
                            if self@.contains_key(text.take(j)) {
                                assert(text.take(j).take(k + 1) =~= q);
                                assert(self.index_of@.contains_key(q));
                                assert(self.index_of@[q.drop_last()] == cur);
                            }
                        }
                        lemma_longest_upto_skip(self@, text, k as nat, text.len());
                    }
                    return rval;
                },
                Some(j) => {
                    proof {
                        lemma_tails_child_in(self.tails@[cur as int]@, b);
                        let kk = choose|kk: int| 0 <= kk < self.tails@[cur as int]@.len() && #[trigger] self.tails@[cur as int]@[kk] == (b, j);
                        assert(self.tails@[cur as int]@[kk] == (b, j));
                        assert(text.take(k as int).push(b) =~= q);
                    }
                    cur = j;
                    if let Some(tag) = self.tags[cur] {
                        rval = Some((tag, self.lengths[cur]));
                    }
                    k = k + 1;
                },
            }
        }
        rval
    }

    /// Whether some lexeme is a prefix of `string`.
    pub fn matches(&self, string: &str) -> (r: bool)
        requires
            self.wf(),
        ensures
            r == has_prefix_match(self@, string.spec_bytes()),
    {
        self.matches_bytes(string.as_bytes())
    }

    /// Whether some lexeme is a prefix of `bytes`.
    pub fn matches_bytes(&self, bytes: &[u8]) -> (r: bool)
        requires
            self.wf(),
        ensures
            r == has_prefix_match(self@, bytes@),
    {
        let ghost text = bytes@;
        let mut cur: usize = 0;
        let mut k: usize = 0;
        proof {
            assert(text.take(0) =~= Seq::<u8>::empty());
        }
        while k < bytes.len()
            invariant
                self.wf(),
                text == bytes@,
                k <= text.len(),
                cur < self.tags@.len(),
                self.paths@[cur as int] == text.take(k as int),
                forall|j: int| 1 <= j <= k ==> !#[trigger] self@.contains_key(text.take(j)),
            decreases text.len() - k,
        {
            let b = bytes[k];
            let ghost q = text.take(k + 1);
            assert(q.drop_last() =~= text.take(k as int));
            match find_child(&self.tails[cur], b) {
                None => {
                    proof {
                        assert forall|j: int| 1 <= j <= text.len() implies !#[trigger] self@.contains_key(text.take(j)) by {
                            if j > k && self@.contains_key(text.take(j)) {
                                assert(text.take(j).take(k + 1) =~= q);
                                assert(self.index_of@.contains_key(q));
                                assert(self.index_of@[q.drop_last()] == cur);
                            }
                        }
                    }
                    return false;
                },
                Some(j) => {
                    proof {
                        lemma_tails_child_in(self.tails@[cur as int]@, b);
                        let kk = choose|kk: int| 0 <= kk < self.tails@[cur as int]@.len() && #[trigger] self.tails@[cur as int]@[kk] == (b, j);
                        assert(self.tails@[cur as int]@[kk] == (b, j));
                        assert(text.take(k as int).push(b) =~= q);
                    }
                    cur = j;
                    if self.tags[cur].is_some() {
                        assert(self@.contains_key(text.take(k + 1)));
                        return true;
                    }
                    k = k + 1;
                },
            }
        }
        false
    }
}

} // verus!
