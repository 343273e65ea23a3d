//! Character-level helpers shared by the URL and JSON code: moving
//! between `String` and `Vec<char>`, and hexadecimal digits.

use vstd::prelude::*;
use vstd::string::StrSliceExecFns;

verus! {

/// The characters of a string slice, as a vector with the same view.
pub fn str_to_chars(s: &str) -> (r: Vec<char>)
    ensures
        r@ == s@,
{
    let n = s.unicode_len();
    let mut r: Vec<char> = Vec::new();
    for i in 0..n
        invariant
            n == s@.len(),
            r@ == s@.subrange(0, i as int),
    {
        r.push(s.get_char(i));
        proof {
            assert(r@ =~= s@.subrange(0, i + 1));
        }
    }
    proof {
        assert(r@ =~= s@);
    }
    r
}

/// Relies on `String`'s `FromIterator<char>` implementation: collecting
/// an iterator of characters builds the string made of exactly those
/// characters, in order.
#[verifier::external_body]
pub fn chars_to_string(v: &Vec<char>) -> (r: String)
    ensures
        r@ == v@,
{
    v.iter().collect()
}

/// Appends the characters of a string slice to a character vector.
pub fn append_str(out: &mut Vec<char>, s: &str)
    ensures
        final(out)@ == old(out)@ + s@,
{
    let n = s.unicode_len();
    for i in 0..n
        invariant
            n == s@.len(),
            out@ == old(out)@ + s@.subrange(0, i as int),
    {
        out.push(s.get_char(i));
        proof {
            assert(out@ =~= old(out)@ + s@.subrange(0, i + 1));
        }
    }
    proof {
        assert(out@ =~= old(out)@ + s@);
    }
}

/// Appends the characters of another vector.
pub fn append_chars(out: &mut Vec<char>, s: &Vec<char>)
    ensures
        final(out)@ == old(out)@ + s@,
{
    let mut i: usize = 0;
    proof {
        assert(out@ =~= old(out)@ + s@.take(0));
    }
    while i < s.len()
        invariant
            i <= s@.len(),
            out@ == old(out)@ + s@.take(i as int),
        decreases s@.len() - i,
    {
        out.push(s[i]);
        proof {
            assert(out@ =~= old(out)@ + s@.take(i + 1));
        }
        i = i + 1;
    }
    proof {
        assert(s@.take(s@.len() as int) =~= s@);
    }
}

/// Whether `c` is an ASCII hexadecimal digit, of either case.
pub open spec fn is_hex_digit(c: char) -> bool {
    let u = c as u32;
    (48 <= u && u <= 57) || (65 <= u && u <= 70) || (97 <= u && u <= 102)
}

/// The value of a hexadecimal digit, between 0 and 15.
pub open spec fn hex_val(c: char) -> int {
    let u = c as u32 as int;
    if 48 <= u && u <= 57 {
        u - 48
    } else if 65 <= u && u <= 70 {
        u - 55
    } else {
        u - 87
    }
}

/// The upper-case hexadecimal digit of a value between 0 and 15.
pub open spec fn hex_digit_upper(v: int) -> char {
    if v < 10 {
        ((48 + v) as u32) as char
    } else {
        ((55 + v) as u32) as char
    }
}

/// The lower-case hexadecimal digit of a value between 0 and 15.
pub open spec fn hex_digit_lower(v: int) -> char {
    if v < 10 {
        ((48 + v) as u32) as char
    } else {
        ((87 + v) as u32) as char
    }
}

/// Each hexadecimal digit names its own value, whichever case it is
/// written in.
pub proof fn lemma_hex_digit_upper(v: int)
    requires
        0 <= v < 16,
    ensures
        is_hex_digit(hex_digit_upper(v)),
        hex_val(hex_digit_upper(v)) == v,
{
}

pub proof fn lemma_hex_digit_lower(v: int)
    requires
        0 <= v < 16,
    ensures
        is_hex_digit(hex_digit_lower(v)),
        hex_val(hex_digit_lower(v)) == v,
{
}

/// Whether `c` is an ASCII hexadecimal digit, decided in executable
/// code.
pub fn hex_digit_check(c: char) -> (r: bool)
    ensures
        r == is_hex_digit(c),
{
    let u = c as u32;
    (48 <= u && u <= 57) || (65 <= u && u <= 70) || (97 <= u && u <= 102)
}

/// The value of a hexadecimal digit, computed in executable code.
pub fn hex_val_of(c: char) -> (r: u32)
    requires
        is_hex_digit(c),
    ensures
        r == hex_val(c),
        r < 16,
{
    let u = c as u32;
    if 48 <= u && u <= 57 {
        u - 48
    } else if 65 <= u && u <= 70 {
        u - 55
    } else {
        u - 87
    }
}

} // verus!
