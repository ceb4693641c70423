//! Positions within a labelled text, as used in diagnostics.

use vstd::prelude::*;
use vstd::string::StringSliceAdditionalSpecFns;
use vstd::string::StringExecFns;
use vstd::string::StrSliceExecFns;

use crate::text::{decimal, decimal_string};

verus! {

/// `s` holds a line feed at `p`.
pub open spec fn lf_at(s: Seq<u8>, p: int) -> bool {
    0 <= p < s.len() && s[p] == 10u8
}

/// Index of the first line feed in `s`.
pub open spec fn first_lf(s: Seq<u8>) -> Option<int>
    decreases s.len(),
{
    if s.len() == 0 {
        None
    } else if s[0] == 10u8 {
        Some(0)
    } else {
        match first_lf(s.drop_first()) {
            Some(p) => Some(p + 1),
            None => None,
        }
    }
}

/// Number of line feeds in `s`.
pub open spec fn count_lf(s: Seq<u8>) -> nat
    decreases s.len(),
{
    if s.len() == 0 {
        0
    } else {
        (if s[0] == 10u8 {
            1nat
        } else {
            0nat
        }) + count_lf(s.drop_first())
    }
}

/// The number of line breaks in `s`: each "\r\n" pair counts once and each
/// other line feed counts once, which is the number of its line feeds.
pub open spec fn line_breaks(s: Seq<u8>) -> nat {
    count_lf(s)
}

/// Number of bytes after the last line feed of `s`, if it holds one.
pub open spec fn bytes_after_last_lf(s: Seq<u8>) -> Option<int>
    decreases s.len(),
{
    if s.len() == 0 {
        None
    } else if s.last() == 10u8 {
        Some(0)
    } else {
        match bytes_after_last_lf(s.drop_last()) {
            Some(k) => Some(k + 1),
            None => None,
        }
    }
}

/// The column offset after stepping past `s` from column `offset`: one more
/// than the number of bytes after the last line feed, or `offset` moved on by
/// the length of `s` when it holds no line feed.
pub open spec fn offset_after(s: Seq<u8>, offset: int) -> int {
    match bytes_after_last_lf(s) {
        Some(k) => k + 1,
        None => offset + s.len(),
    }
}

/// Abstract value of a [`Location`].
pub struct LocationView {
    pub label: Seq<char>,
    pub index: nat,
    pub line_number: nat,
    pub offset: nat,
}

/// Data for use in user friendly lexical analysis error messages.
#[derive(Debug, Clone, PartialEq, Eq, PartialOrd, Ord)]
pub struct Location {
    /// A label describing the source of the string in which this location occurs
    label: String,
    /// Current position in the parsed string
    index: usize,
    /// Human friendly line number of this location
    line_number: usize,
    /// Human friendly offset of this location within its line
    offset: usize,
}

impl View for Location {
    type V = LocationView;

    closed spec fn view(&self) -> LocationView {
        LocationView {
            label: self.label@,
            index: self.index as nat,
            line_number: self.line_number as nat,
            offset: self.offset as nat,
        }
    }
}

impl Default for Location {
    fn default() -> (r: Self)
        ensures
            r@.label == Seq::<char>::empty(),
            r@.index == 0,
            r@.line_number == 0,
            r@.offset == 0,
    {
        Location { label: String::new(), index: 0, line_number: 0, offset: 0 }
    }
}

proof fn lemma_first_lf(s: Seq<u8>)
    ensures
        match first_lf(s) {
            Some(p) => lf_at(s, p) && forall|q: int| 0 <= q < p ==> !#[trigger] lf_at(s, q),
            None => forall|q: int| !#[trigger] lf_at(s, q),
        },
    decreases s.len(),
{
    if s.len() >= 1 && s[0] != 10u8 {
        let t = s.drop_first();
        lemma_first_lf(t);
        assert forall|q: int| #[trigger] lf_at(s, q) implies q > 0 && lf_at(t, q - 1) by {}
        if let Some(p) = first_lf(t) {
            assert(lf_at(s, p + 1));
        }
    }
}

/// Counting the line feeds of `s` splits at its first line feed.
proof fn lemma_count_lf_split(s: Seq<u8>, e: int)
    requires
        first_lf(s) == Some(e),
    ensures
        0 <= e < s.len(),
        count_lf(s) == 1 + count_lf(s.skip(e + 1)),
    decreases s.len(),
{
    lemma_first_lf(s);
    if s[0] == 10u8 {
        assert(e == 0);
        assert(s.skip(1) =~= s.drop_first());
    } else {
        let t = s.drop_first();
        lemma_count_lf_split(t, e - 1);
        assert(t.skip(e) =~= s.skip(e + 1));
    }
}

proof fn lemma_count_lf_none(s: Seq<u8>)
    requires
        first_lf(s) == None::<int>,
    ensures
        count_lf(s) == 0,
    decreases s.len(),
{
    if s.len() > 0 {
        lemma_count_lf_none(s.drop_first());
    }
}

proof fn lemma_count_lf_bound(s: Seq<u8>)
    ensures
        count_lf(s) <= s.len(),
    decreases s.len(),
{
    if s.len() > 0 {
        lemma_count_lf_bound(s.drop_first());
    }
}

/// The line feeds of a joined text are those of its parts.
proof fn lemma_count_lf_concat(a: Seq<u8>, b: Seq<u8>)
    ensures
        count_lf(a + b) == count_lf(a) + count_lf(b),
    decreases a.len(),
{
    if a.len() == 0 {
        assert(a + b =~= b);
    } else {
        assert((a + b).drop_first() =~= a.drop_first() + b);
        lemma_count_lf_concat(a.drop_first(), b);
    }
}

/// The bytes after the last line feed of a joined text: those of the second
/// part where it holds a line feed, and otherwise those of the first part
/// followed by all of the second.
proof fn lemma_bytes_after_concat(a: Seq<u8>, b: Seq<u8>)
    ensures
        bytes_after_last_lf(a + b) == match bytes_after_last_lf(b) {
            Some(k) => Some(k),
            None => match bytes_after_last_lf(a) {
                Some(k) => Some(k + b.len()),
                None => None::<int>,
            },
        },
    decreases b.len(),
{
    if b.len() == 0 {
        assert(a + b =~= a);
    } else {
        assert((a + b).last() == b.last());
        if b.last() != 10u8 {
            assert((a + b).drop_last() =~= a + b.drop_last());
            lemma_bytes_after_concat(a, b.drop_last());
        }
    }
}

/// Stepping past `a` and then past `b` counts the line breaks of both and
/// ends at the offset of stepping past `a` followed by `b`; with the index,
/// which moves on by each length in turn, successive steps add up.
pub proof fn law_step_past_joins(a: Seq<u8>, b: Seq<u8>, offset: int)
    ensures
        line_breaks(a + b) == line_breaks(a) + line_breaks(b),
        offset_after(b, offset_after(a, offset)) == offset_after(a + b, offset),
{
    lemma_count_lf_concat(a, b);
    lemma_bytes_after_concat(a, b);
}

/// Stepping past a prefix of `s` that ends in a line feed resets the offset.
proof fn lemma_offset_after_lf(s: Seq<u8>, k: int, offset: int)
    requires
        1 <= k <= s.len(),
        s[k - 1] == 10u8,
    ensures
        offset_after(s, offset) == offset_after(s.skip(k), 1),
    decreases s.len(),
{
    if s.len() == k {
        assert(s.last() == 10u8);
        assert(s.skip(k).len() == 0);
    } else {
        let t = s.drop_last();
        lemma_offset_after_lf(t, k, offset);
        assert(t.skip(k) =~= s.skip(k).drop_last());
        assert(s.skip(k).last() == s.last());
    }
}

/// A remainder without line feeds moves the offset on by its length.
proof fn lemma_offset_after_no_lf(s: Seq<u8>, offset: int)
    requires
        first_lf(s) == None::<int>,
    ensures
        offset_after(s, offset) == offset + s.len(),
    decreases s.len(),
{
    lemma_first_lf(s);
    if s.len() > 0 {
        assert(!lf_at(s, s.len() - 1));
        let t = s.drop_last();
        lemma_first_lf(t);
        if let Some(p) = first_lf(t) {
            assert(lf_at(s, p));
        }
        lemma_offset_after_no_lf(t, offset);
    }
}

proof fn lemma_bytes_after_last_lf_bound(s: Seq<u8>)
    ensures
        bytes_after_last_lf(s) matches Some(k) ==> 0 <= k < s.len(),
    decreases s.len(),
{
    if s.len() > 0 {
        lemma_bytes_after_last_lf_bound(s.drop_last());
    }
}

/// Stepping past `s` moves the offset on by at most the length of `s`.
pub proof fn lemma_offset_after_bound(s: Seq<u8>, offset: int)
    requires
        offset >= 0,
    ensures
        0 < offset_after(s, offset) <= offset + s.len() || (offset == 0 && s.len() == 0 && offset_after(s, offset) == 0),
        offset >= 1 ==> 1 <= offset_after(s, offset),
{
    lemma_bytes_after_last_lf_bound(s);
}

/// Stepping past `s` counts at most one line break per byte.
pub proof fn lemma_line_breaks_le_len(s: Seq<u8>)
    ensures
        line_breaks(s) <= s.len(),
{
    lemma_count_lf_bound(s);
}

/// Position of the first line feed at or after `from`.
fn find_lf(bytes: &[u8], from: usize) -> (r: Option<usize>)
    requires
        from <= bytes@.len(),
    ensures
        r matches Some(p) ==> first_lf(bytes@.skip(from as int)) == Some(p as int) && from + p + 1 <= bytes@.len(),
        r is None ==> first_lf(bytes@.skip(from as int)) == None::<int>,
{
    let ghost s = bytes@.skip(from as int);
    proof {
        lemma_first_lf(s);
    }
    let mut j: usize = from;
    while j < bytes.len()
        invariant
            from <= j <= bytes@.len(),
            s == bytes@.skip(from as int),
            forall|q: int| 0 <= q < j - from ==> !#[trigger] lf_at(s, q),
            match first_lf(s) {
                Some(p) => lf_at(s, p) && forall|q: int| 0 <= q < p ==> !#[trigger] lf_at(s, q),
                None => forall|q: int| !#[trigger] lf_at(s, q),
            },
        decreases bytes@.len() - j,
    {
        if bytes[j] == 10u8 {
            assert(lf_at(s, j - from));
            proof {
                if let Some(p) = first_lf(s) {
                    if p < j - from {
                        assert(!lf_at(s, p));
                    }
                    if p > j - from {
                        assert(!lf_at(s, (j - from) as int));
                    }
                }
            }
            return Some(j - from);
        }
        assert(!lf_at(s, j - from));
        j = j + 1;
    }
    proof {
        if let Some(p) = first_lf(s) {
            assert(lf_at(s, p));
        }
    }
    None
}

impl Location {
    /// The location at the start of the text labelled `label`.
    pub fn new(label: &str) -> (r: Self)
        ensures
            r@.label == label@,
            r@.index == 0,
            r@.line_number == 1,
            r@.offset == 1,
    {
        Location { index: 0, line_number: 1, offset: 1, label: label.to_string() }
    }

    /// A copy of this location.
    pub fn snapshot(&self) -> (r: Self)
        ensures
            r@ == self@,
    {
        Location {
            label: self.label.clone(),
            index: self.index,
            line_number: self.line_number,
            offset: self.offset,
        }
    }

    pub fn index(&self) -> (r: usize)
        ensures
            r == self@.index,
    {
        self.index
    }

    pub fn line_number(&self) -> (r: usize)
        ensures
            r == self@.line_number,
    {
        self.line_number
    }

    pub fn offset(&self) -> (r: usize)
        ensures
            r == self@.offset,
    {
        self.offset
    }

    pub fn label(&self) -> (r: &String)
        ensures
            r@ == self@.label,
    {
        &self.label
    }

    /// Moves this location past `slice`, which is the text that follows it:
    /// each line break (a "\r\n" pair or a lone line feed) starts a new line.
    pub fn step_past(&mut self, slice: &str)
        requires
            old(self)@.index + slice.spec_bytes().len() <= usize::MAX,
            old(self)@.line_number + slice.spec_bytes().len() <= usize::MAX,
            old(self)@.offset + slice.spec_bytes().len() <= usize::MAX,
        ensures
            final(self)@.label == old(self)@.label,
            final(self)@.index == old(self)@.index + slice.spec_bytes().len(),
            final(self)@.line_number == old(self)@.line_number + line_breaks(slice.spec_bytes()),
            final(self)@.offset == offset_after(slice.spec_bytes(), old(self)@.offset as int),
    {
        self.step_past_bytes(slice.as_bytes());
    }

    /// Moves this location past the bytes `slice`.
    pub fn step_past_bytes(&mut self, slice: &[u8])
        requires
            old(self)@.index + slice@.len() <= usize::MAX,
            old(self)@.line_number + slice@.len() <= usize::MAX,
            old(self)@.offset + slice@.len() <= usize::MAX,
        ensures
            final(self)@.label == old(self)@.label,
            final(self)@.index == old(self)@.index + slice@.len(),
            final(self)@.line_number == old(self)@.line_number + line_breaks(slice@),
            final(self)@.offset == offset_after(slice@, old(self)@.offset as int),
    {
        let ghost s = slice@;
        let next_index = self.index + slice.len();
        let len = slice.len();
        let mut i: usize = 0;
        proof {
            assert(s.skip(0) =~= s);
            lemma_count_lf_bound(s);
        }
        while i < len
            invariant
                len == s.len(),
                s == slice@,
                i <= len,
                self.label@ == old(self).label@,
                self.index == old(self).index,
                next_index == old(self).index + len,
                old(self).line_number + line_breaks(s) <= usize::MAX,
                self.line_number + line_breaks(s.skip(i as int)) == old(self).line_number
                    + line_breaks(s),
                offset_after(s.skip(i as int), self.offset as int) == offset_after(
                    s,
                    old(self).offset as int,
                ),
                self.offset <= old(self).offset + i,
                old(self).offset + len <= usize::MAX,
            decreases len - i,
        {
            let ghost u = s.skip(i as int);
            if let Some(e) = find_lf(slice, i) {
                proof {
                    lemma_first_lf(u);
                    lemma_count_lf_split(u, e as int);
                    assert(u.skip(e + 1) =~= s.skip(i + e + 1));
                    lemma_count_lf_bound(u.skip(e + 1));
                    lemma_offset_after_lf(u, e + 1, self.offset as int);
                }
                self.line_number = self.line_number + 1;
                self.offset = 1;
                i = i + e + 1;
            } else {
                proof {
                    lemma_count_lf_none(u);
                    lemma_offset_after_no_lf(u, self.offset as int);
                    assert(s.skip(len as int).len() == 0);
                }
                self.offset = self.offset + (len - i);
                i = len;
            }
        }
        proof {
            assert(s.skip(len as int).len() == 0);
        }
        self.index = next_index;
    }
}

/// A label must be quoted in a location's text when it holds a space or a tab.
pub open spec fn label_needs_quotes(label: Seq<char>) -> bool {
    label.contains(' ') || label.contains('\t')
}

/// `label`, quoted where it holds a space or a tab, followed by a colon;
/// nothing at all for an empty label.
pub open spec fn label_prefix(label: Seq<char>) -> Seq<char> {
    if label.len() == 0 {
        Seq::empty()
    } else if label_needs_quotes(label) {
        seq!['"'] + label + seq!['"', ':']
    } else {
        label + seq![':']
    }
}

/// The text of a location: its label prefix, then index, line number and
/// offset separated by colons.
pub open spec fn location_text(l: LocationView) -> Seq<char> {
    label_prefix(l.label) + decimal(l.index) + seq![':'] + decimal(l.line_number) + seq![':']
        + decimal(l.offset)
}

/// The text of a location without its index: label prefix, line number and offset.
pub open spec fn location_short_text(l: LocationView) -> Seq<char> {
    label_prefix(l.label) + decimal(l.line_number) + seq![':'] + decimal(l.offset)
}

/// Whether `s` holds the character `c`.
fn str_has_char(s: &str, c: char) -> (r: bool)
    ensures
        r == s@.contains(c),
{
    let n = s.unicode_len();
    let mut i: usize = 0;
    while i < n
        invariant
            n == s@.len(),
            i <= n,
            forall|j: int| 0 <= j < i ==> s@[j] != c,
        decreases n - i,
    {
        if s.get_char(i) == c {
            return true;
        }
        i = i + 1;
    }
    false
}

impl Location {
    /// The location labelled `label` at the given index, line number and offset.
    pub fn at(label: &str, index: usize, line_number: usize, offset: usize) -> (r: Self)
        ensures
            r@.label == label@,
            r@.index == index,
            r@.line_number == line_number,
            r@.offset == offset,
    {
        Location { label: label.to_string(), index, line_number, offset }
    }

    /// The label prefix of this location's text.
    fn label_prefix_string(&self) -> (r: String)
        ensures
            r@ == label_prefix(self@.label),
    {
        let label = self.label.as_str();
        if label.unicode_len() == 0 {
            String::new()
        } else if str_has_char(label, ' ') || str_has_char(label, '\t') {
            proof {
                reveal_strlit("\"");
                reveal_strlit("\":");
            }
            let mut r = String::from_str("\"");
            r.append(label);
            r.append("\":");
            r
        } else {
            proof {
                reveal_strlit(":");
            }
            let mut r = String::from_str(label);
            r.append(":");
            r
        }
    }

    /// This location as text, such as `whatever:120:10:15`.
    pub fn to_string(&self) -> (r: String)
        ensures
            r@ == location_text(self@),
    {
        proof {
            reveal_strlit(":");
        }
        let mut r = self.label_prefix_string();
        r.append(decimal_string(self.index).as_str());
        r.append(":");
        r.append(decimal_string(self.line_number).as_str());
        r.append(":");
        r.append(decimal_string(self.offset).as_str());
        r
    }

    /// This location as text without its index, such as `whatever:10:15`.
    pub fn to_short_string(&self) -> (r: String)
        ensures
            r@ == location_short_text(self@),
    {
        proof {
            reveal_strlit(":");
        }
        let mut r = self.label_prefix_string();
        r.append(decimal_string(self.line_number).as_str());
        r.append(":");
        r.append(decimal_string(self.offset).as_str());
        r
    }
}

/// The abstract values of a sequence of locations.
pub open spec fn locations_view(locations: Seq<Location>) -> Seq<LocationView> {
    locations.map_values(|l: Location| l@)
}

/// A copy of a list of locations.
pub fn snapshot_all(locations: &Vec<Location>) -> (r: Vec<Location>)
    ensures
        locations_view(r@) == locations_view(locations@),
{
    let mut r: Vec<Location> = Vec::new();
    let mut i: usize = 0;
    while i < locations.len()
        invariant
            i <= locations@.len(),
            r@.len() == i,
            locations_view(r@) == locations_view(locations@.take(i as int)),
        decreases locations@.len() - i,
    {
        let ghost before = r@;
        r.push(locations[i].snapshot());
        proof {
            assert(locations@.take(i + 1) =~= locations@.take(i as int).push(locations@[i as int]));
            assert forall|j: int| 0 <= j < r@.len() implies r@[j]@ == locations@.take(i + 1)[j]@ by {
                if j < i {
                    assert(locations_view(before)[j] == locations_view(locations@.take(i as int))[j]);
                }
            }
            assert(locations_view(r@) =~= locations_view(locations@.take(i + 1)));
        }
        i = i + 1;
    }
    proof {
        assert(locations@.take(i as int) =~= locations@);
    }
    r
}

} // verus!
