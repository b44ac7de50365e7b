//! Character classes of the definition language, and small string helpers.
//!
//! The language is deliberately ASCII-only: identifiers, numbers and
//! punctuation are drawn from the ASCII range, and any other character is
//! a lexical error.  Quoted strings may still carry arbitrary characters,
//! since their contents are never classified.  Spelling the classes out
//! here, instead of leaning on the character tables behind
//! `char::is_alphabetic` and its siblings, keeps every fact about them —
//! which characters end a word, that no keyword character is punctuation —
//! decidable by the verifier; the price is that a word may not start with
//! a letter beyond ASCII.

use vstd::prelude::*;
use vstd::string::*;

verus! {

/// A whitespace separator between tokens.
pub open spec fn is_ws_char(c: char) -> bool {
    c == ' ' || c == '\t' || c == '\n' || c == '\r'
}

/// A character that may start an identifier or a keyword.
pub open spec fn is_alpha_char(c: char) -> bool {
    ('a' <= c && c <= 'z') || ('A' <= c && c <= 'Z')
}

/// A decimal digit.
pub open spec fn is_digit_char(c: char) -> bool {
    '0' <= c && c <= '9'
}

/// A character that may continue an identifier.
pub open spec fn is_id_char(c: char) -> bool {
    is_alpha_char(c) || is_digit_char(c) || c == '_'
}

/// The numeric value of a decimal digit.
pub open spec fn digit_val(c: char) -> int {
    c as int - '0' as int
}

pub fn ws_char(c: char) -> (r: bool)
    ensures
        r == is_ws_char(c),
{
    c == ' ' || c == '\t' || c == '\n' || c == '\r'
}

pub fn alpha_char(c: char) -> (r: bool)
    ensures
        r == is_alpha_char(c),
{
    ('a' <= c && c <= 'z') || ('A' <= c && c <= 'Z')
}

pub fn digit_char(c: char) -> (r: bool)
    ensures
        r == is_digit_char(c),
{
    '0' <= c && c <= '9'
}

pub fn id_char(c: char) -> (r: bool)
    ensures
        r == is_id_char(c),
{
    alpha_char(c) || digit_char(c) || c == '_'
}

/// Compares two string slices by their character sequences.
pub fn str_eq(a: &str, b: &str) -> (r: bool)
    ensures
        r == (a@ == b@),
{
    let alen = a.unicode_len();
    let blen = b.unicode_len();
    if alen != blen {
        assert(a@.len() != b@.len());
        return false;
    }
    let mut i: usize = 0;
    while i < alen
        invariant
            alen == a@.len(),
            blen == b@.len(),
            alen == blen,
            0 <= i <= alen,
            forall|j: int| 0 <= j < i ==> a@[j] == b@[j],
        decreases alen - i,
    {
        if a.get_char(i) != b.get_char(i) {
            assert(a@[i as int] != b@[i as int]);
            return false;
        }
        i += 1;
    }
    assert(a@ =~= b@);
    true
}

/// Collects the characters of a string slice into a vector.
pub fn str_chars(s: &str) -> (r: Vec<char>)
    ensures
        r@ == s@,
{
    let len = s.unicode_len();
    let mut v: Vec<char> = Vec::new();
    let mut i: usize = 0;
    while i < len
        invariant
            len == s@.len(),
            0 <= i <= len,
            v@ =~= s@.subrange(0, i as int),
        decreases len - i,
    {
        v.push(s.get_char(i));
        i += 1;
    }
    assert(v@ =~= s@);
    v
}

/// Relies on `String::push`: appends the given character to the end of
/// the string.
#[verifier::external_body]
pub fn push_char(s: &mut String, c: char)
    ensures
        final(s)@ == old(s)@.push(c),
{
    s.push(c)
}

/// Builds a `String` out of a character sequence.
pub fn chars_to_string(v: &Vec<char>) -> (r: String)
    ensures
        r@ == v@,
{
    let mut s = String::new();
    let mut i: usize = 0;
    while i < v.len()
        invariant
            0 <= i <= v@.len(),
            s@ =~= v@.subrange(0, i as int),
        decreases v@.len() - i,
    {
        push_char(&mut s, v[i]);
        assert(s@ =~= v@.subrange(0, i + 1 as int));
        i += 1;
    }
    assert(s@ =~= v@);
    s
}

/// The decimal digit character for a value below ten.
pub open spec fn digit_char_of(d: int) -> char {
    if d == 0 { '0' } else if d == 1 { '1' } else if d == 2 { '2' } else if d == 3 { '3' }
    else if d == 4 { '4' } else if d == 5 { '5' } else if d == 6 { '6' } else if d == 7 { '7' }
    else if d == 8 { '8' } else { '9' }
}

/// The decimal rendering of a nonnegative value.
pub open spec fn dec_of(n: int) -> Seq<char>
    decreases n,
{
    if n <= 0 {
        seq!['0']
    } else if n < 10 {
        seq![digit_char_of(n)]
    } else {
        dec_of(n / 10) + seq![digit_char_of(n % 10)]
    }
}

/// Renders a digit below ten.
fn render_digit(d: u64) -> (r: char)
    requires
        d < 10,
    ensures
        r == digit_char_of(d as int),
{
    if d == 0 { '0' } else if d == 1 { '1' } else if d == 2 { '2' } else if d == 3 { '3' }
    else if d == 4 { '4' } else if d == 5 { '5' } else if d == 6 { '6' } else if d == 7 { '7' }
    else if d == 8 { '8' } else { '9' }
}

/// Renders a nonnegative value in decimal.
pub fn u64_to_string(n: u64) -> (r: String)
    ensures
        r@ == dec_of(n as int),
{
    if n == 0 {
        let z = String::from_str("0");
        proof {
            reveal_strlit("0");
            assert(z@ =~= seq!['0']);
        }
        return z;
    }
    let mut digits: Vec<char> = Vec::new();
    let mut m = n;
    while m > 0
        invariant
            0 <= m <= n,
            m > 0 ==> dec_of(n as int) == dec_of(m as int) + digits@.reverse(),
            m == 0 ==> dec_of(n as int) == digits@.reverse(),
            n > 0,
        decreases m,
    {
        let ghost m0 = m as int;
        let ghost ds = digits@;
        let d = m % 10;
        digits.push(render_digit(d));
        m = m / 10;
        proof {
            assert(digits@ =~= ds.push(digit_char_of(m0 % 10)));
            if m0 >= 10 {
                assert(dec_of(m0) == dec_of(m0 / 10) + seq![digit_char_of(m0 % 10)]);
                assert(digits@.reverse() =~= seq![digit_char_of(m0 % 10)] + ds.reverse());
                assert(dec_of(m0 / 10) + (seq![digit_char_of(m0 % 10)] + ds.reverse())
                    =~= (dec_of(m0 / 10) + seq![digit_char_of(m0 % 10)]) + ds.reverse());
            } else {
                assert(m == 0);
                assert(dec_of(m0) == seq![digit_char_of(m0)]);
                assert(m0 % 10 == m0);
                assert(digits@.reverse() =~= seq![digit_char_of(m0)] + ds.reverse());
            }
        }
    }
    let mut out = String::new();
    let mut i: usize = digits.len();
    proof {
        assert(out@ =~= digits@.reverse().subrange(0, 0));
    }
    while i > 0
        invariant
            0 <= i <= digits@.len(),
            out@ == digits@.reverse().subrange(0, digits@.len() - i),
        decreases i,
    {
        i -= 1;
        push_char(&mut out, digits[i]);
        proof {
            assert(out@ =~= digits@.reverse().subrange(0, digits@.len() - i));
        }
    }
    proof {
        assert(out@ =~= digits@.reverse());
    }
    out
}

/// The decimal rendering of a signed value.
pub open spec fn dec_of_i64(n: int) -> Seq<char> {
    if n < 0 {
        seq!['-'] + dec_of(-n)
    } else {
        dec_of(n)
    }
}

/// Renders a signed value in decimal.
pub fn i64_to_string(n: i64) -> (r: String)
    ensures
        r@ == dec_of_i64(n as int),
{
    if n >= 0 {
        u64_to_string(n as u64)
    } else {
        let mag: u64 = if n == i64::MIN {
            9223372036854775808u64
        } else {
            (-n) as u64
        };
        assert(mag as int == -(n as int));
        let mut out = String::from_str("-");
        let d = u64_to_string(mag);
        out.append(d.as_str());
        proof {
            reveal_strlit("-");
            assert(out@ =~= seq!['-'] + dec_of(mag as int));
        }
        out
    }
}

} // verus!
