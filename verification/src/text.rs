//! Facts about the bytes of a string.

use vstd::prelude::*;
use vstd::string::StringSliceAdditionalSpecFns;
use vstd::string::StringExecFns;

verus! {

/// Number of bytes of `s`.
pub fn byte_len(s: &str) -> (r: usize)
    ensures
        r == s.spec_bytes().len(),
{
    s.as_bytes().len()
}

/// A string has no bytes exactly when it has no characters.
pub proof fn lemma_bytes_empty(s: &str)
    ensures
        (s.spec_bytes().len() == 0) == (s@.len() == 0),
{
    if s@.len() > 0 {
        let c = s@[0] as u32;
        assert(vstd::utf8::encode_scalar(c).len() >= 1);
        assert(s.spec_bytes() == vstd::utf8::encode_scalar(c) + vstd::utf8::encode_utf8(s@.drop_first()));
    }
}

/// The part of a string after a character boundary reads as the decoded
/// remainder of its bytes.
pub proof fn lemma_split_view(text: &str, i: int, rest: &str)
    requires
        0 <= i <= text.spec_bytes().len(),
        rest.spec_bytes() == text.spec_bytes().subrange(i, text.spec_bytes().len() as int),
    ensures
        rest@ == vstd::utf8::decode_utf8(text.spec_bytes().skip(i)),
        rest.spec_bytes() == text.spec_bytes().skip(i),
{
    vstd::utf8::encode_utf8_decode_utf8(rest@);
    assert(text.spec_bytes().skip(i) =~= text.spec_bytes().subrange(i, text.spec_bytes().len() as int));
}

/// A character boundary of the remainder after a boundary is a boundary of the whole.
pub proof fn lemma_boundary_shift(bytes: Seq<u8>, i: int, e: int)
    requires
        vstd::utf8::valid_utf8(bytes),
        0 <= i <= bytes.len(),
        vstd::utf8::is_char_boundary(bytes, i),
        0 <= e <= bytes.len() - i,
        vstd::utf8::is_char_boundary(bytes.subrange(i, bytes.len() as int), e),
    ensures
        vstd::utf8::is_char_boundary(bytes, i + e),
{
    let sub = bytes.subrange(i, bytes.len() as int);
    vstd::utf8::valid_utf8_split(bytes, i);
    if e == sub.len() {
        vstd::utf8::is_char_boundary_start_end_of_seq(bytes);
    } else {
        vstd::utf8::is_char_boundary_iff_not_is_continuation_byte(sub, e);
        vstd::utf8::is_char_boundary_iff_not_is_continuation_byte(bytes, i + e);
        assert(sub[e] == bytes[i + e]);
    }
}

/// A valid UTF-8 prefix of a valid UTF-8 sequence ends on a character boundary.
pub proof fn lemma_prefix_boundary(t: Seq<u8>, p: Seq<u8>)
    requires
        vstd::utf8::valid_utf8(t),
        vstd::utf8::valid_utf8(p),
        p.len() <= t.len(),
        t.take(p.len() as int) == p,
    ensures
        vstd::utf8::is_char_boundary(t, p.len() as int),
    decreases p.len(),
{
    if p.len() > 0 {
        assert(t[0] == p[0]) by {
            assert(t.take(p.len() as int)[0] == t[0]);
        }
        let l = vstd::utf8::length_of_first_scalar(p);
        assert(vstd::utf8::length_of_first_scalar(t) == l);
        let pt = vstd::utf8::pop_first_scalar(t);
        let pp = vstd::utf8::pop_first_scalar(p);
        assert(pt.take(pp.len() as int) =~= pp) by {
            assert forall|k: int| 0 <= k < pp.len() implies pt[k] == pp[k] by {
                assert(t.take(p.len() as int)[k + l] == t[k + l]);
            }
        }
        lemma_prefix_boundary(pt, pp);
    }
}

/// The character of the decimal digit `d`.
pub open spec fn digit_char(d: nat) -> char {
    (48 + d) as char
}

/// The decimal numeral of `n`, most significant digit first, without leading zeros.
pub open spec fn decimal(n: nat) -> Seq<char>
    decreases n,
{
    if n < 10 {
        seq![digit_char(n)]
    } else {
        decimal(n / 10).push(digit_char(n % 10))
    }
}

/// The one-character string of the decimal digit `d`.
fn digit_str(d: usize) -> (r: &'static str)
    requires
        d < 10,
    ensures
        r@ == seq![digit_char(d as nat)],
{
    match d {
        0 => {
            proof {
                reveal_strlit("0");
            }
            "0"
        },
        1 => {
            proof {
                reveal_strlit("1");
            }
            "1"
        },
        2 => {
            proof {
                reveal_strlit("2");
            }
            "2"
        },
        3 => {
            proof {
                reveal_strlit("3");
            }
            "3"
        },
        4 => {
            proof {
                reveal_strlit("4");
            }
            "4"
        },
        5 => {
            proof {
                reveal_strlit("5");
            }
            "5"
        },
        6 => {
            proof {
                reveal_strlit("6");
            }
            "6"
        },
        7 => {
            proof {
                reveal_strlit("7");
            }
            "7"
        },
        8 => {
            proof {
                reveal_strlit("8");
            }
            "8"
        },
        _ => {
            proof {
                reveal_strlit("9");
            }
            "9"
        },
    }
}

/// The decimal numeral of `n`.
pub fn decimal_string(n: usize) -> (r: String)
    ensures
        r@ == decimal(n as nat),
    decreases n,
{
    if n < 10 {
        String::from_str(digit_str(n))
    } else {
        let mut s = decimal_string(n / 10);
        s.append(digit_str(n % 10));
        s
    }
}

/// The decimal numeral of `n`.
pub fn decimal_u32(n: u32) -> (r: String)
    ensures
        r@ == decimal(n as nat),
{
    decimal_string(n as usize)
}

/// The decimal numerals of the numbers of `s`, in order, separated by `sep`.
pub open spec fn numbers_joined(s: Seq<u32>, sep: Seq<char>) -> Seq<char>
    decreases s.len(),
{
    if s.len() == 0 {
        Seq::empty()
    } else if s.len() == 1 {
        decimal(s[0] as nat)
    } else {
        numbers_joined(s.drop_last(), sep) + sep + decimal(s.last() as nat)
    }
}

/// The decimal numerals of `numbers`, in order, separated by `sep`.
pub fn join_numbers(numbers: &Vec<u32>, sep: &str) -> (r: String)
    ensures
        r@ == numbers_joined(numbers@, sep@),
{
    let mut r = String::new();
    let mut i: usize = 0;
    while i < numbers.len()
        invariant
            i <= numbers@.len(),
            r@ == numbers_joined(numbers@.take(i as int), sep@),
        decreases numbers@.len() - i,
    {
        proof {
            assert(numbers@.take(i + 1).drop_last() =~= numbers@.take(i as int));
            assert(numbers@.take(i + 1).last() == numbers@[i as int]);
            assert(numbers@.take(i + 1)[0] == numbers@[0]);
        }
        if i > 0 {
            r.append(sep);
        }
        r.append(decimal_u32(numbers[i]).as_str());
        i = i + 1;
    }
    proof {
        assert(numbers@.take(i as int) =~= numbers@);
    }
    r
}

} // verus!
