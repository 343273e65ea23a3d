//! Percent-coding of query-string components, as the callback URL uses
//! it: `%hh` escapes decoded as UTF-8 bytes, and `+` standing for a
//! space.

use vstd::prelude::*;
use vstd::utf8::{
    char_is_scalar, decode_utf8, encode_scalar, encode_utf8, encode_utf8_decode_utf8,
    encode_utf8_valid_utf8, valid_utf8,
};
use crate::text::{is_hex_digit, hex_val, hex_digit_upper, lemma_hex_digit_upper};
use crate::text::{hex_digit_check, hex_val_of, str_to_chars};

verus! {

/// Characters that percent-encoding leaves as they are: ASCII letters,
/// digits, `-`, `.`, `_` and `~`.
pub open spec fn is_unreserved(c: char) -> bool {
    let u = c as u32;
    (48 <= u && u <= 57) || (65 <= u && u <= 90) || (97 <= u && u <= 122) || u == 45 || u == 46
        || u == 95 || u == 126
}

/// The bytes a query component stands for: each `%hh` escape with two
/// hexadecimal digits is that byte, `+` is a space, and every other
/// character contributes its own UTF-8 bytes (an incomplete escape is
/// kept as written).
pub open spec fn pct_decode_bytes(s: Seq<char>) -> Seq<u8>
    decreases s.len(),
{
    if s.len() == 0 {
        Seq::empty()
    } else if s[0] == '%' && s.len() >= 3 && is_hex_digit(s[1]) && is_hex_digit(s[2]) {
        seq![(hex_val(s[1]) * 16 + hex_val(s[2])) as u8] + pct_decode_bytes(s.skip(3))
    } else if s[0] == '+' {
        seq![32u8] + pct_decode_bytes(s.skip(1))
    } else {
        encode_scalar(s[0] as u32) + pct_decode_bytes(s.skip(1))
    }
}

/// What `String::from_utf8_lossy` makes of bytes that are not valid
/// UTF-8: ill-formed parts become replacement characters, a function of
/// the bytes alone. Only the trusted wrapper below speaks for it.
pub uninterp spec fn utf8_lossy_of(b: Seq<u8>) -> Seq<char>;

/// The characters of a byte sequence: its UTF-8 decoding when the bytes
/// are valid UTF-8, and the lossy reading with replacement characters
/// otherwise.
pub open spec fn bytes_to_chars(b: Seq<u8>) -> Seq<char> {
    if valid_utf8(b) {
        decode_utf8(b)
    } else {
        utf8_lossy_of(b)
    }
}

/// Percent-decoding of a query component: the decoded bytes, read back
/// as characters.
pub open spec fn pct_decode(s: Seq<char>) -> Seq<char> {
    bytes_to_chars(pct_decode_bytes(s))
}

/// The encoding of one ASCII character: unreserved characters stand for
/// themselves, every other one becomes `%` and two upper-case
/// hexadecimal digits.
pub open spec fn enc_char(c: char) -> Seq<char> {
    if is_unreserved(c) {
        seq![c]
    } else {
        seq!['%', hex_digit_upper(c as u32 as int / 16), hex_digit_upper(c as u32 as int % 16)]
    }
}

/// Percent-encoding of an ASCII string, character by character.
pub open spec fn pct_encode(s: Seq<char>) -> Seq<char>
    decreases s.len(),
{
    if s.len() == 0 {
        Seq::empty()
    } else {
        enc_char(s[0]) + pct_encode(s.drop_first())
    }
}

/// Whether every character of `s` is ASCII.
pub open spec fn all_ascii(s: Seq<char>) -> bool {
    forall|i: int| 0 <= i < s.len() ==> (s[i] as u32) < 128
}

/// Relies on `String::from_utf8_lossy` (with `into_owned`): valid UTF-8
/// comes back as exactly its decoding, and anything else as a reading
/// that depends on the bytes alone, with U+FFFD in place of ill-formed
/// parts.
#[verifier::external_body]
fn utf8_lossy_string(b: &Vec<u8>) -> (r: String)
    ensures
        r@ == bytes_to_chars(b@),
        !valid_utf8(b@) ==> r@ == utf8_lossy_of(b@),
{
    String::from_utf8_lossy(b.as_slice()).into_owned()
}

/// Appends the UTF-8 bytes of one character.
fn push_utf8(out: &mut Vec<u8>, c: char)
    ensures
        final(out)@ == old(out)@ + encode_scalar(c as u32),
{
    let u = c as u32;
    proof {
        char_is_scalar(c);
        assert((u & 0x7f) < 256 && ((u >> 6) & 0x1f) < 256 && ((u >> 12) & 0x0f) < 256 && ((u
            >> 18) & 0x7) < 256 && (u & 0x3f) < 256 && ((u >> 6) & 0x3f) < 256 && ((u >> 12)
            & 0x3f) < 256) by (bit_vector);
    }
    if u < 0x80 {
        out.push((u & 0x7f) as u8);
    } else if u < 0x800 {
        out.push(0xc0 | ((u >> 6) & 0x1f) as u8);
        out.push(0x80 | (u & 0x3f) as u8);
    } else if u < 0x10000 {
        out.push(0xe0 | ((u >> 12) & 0x0f) as u8);
        out.push(0x80 | ((u >> 6) & 0x3f) as u8);
        out.push(0x80 | (u & 0x3f) as u8);
    } else {
        out.push(0xf0 | ((u >> 18) & 0x7) as u8);
        out.push(0x80 | ((u >> 12) & 0x3f) as u8);
        out.push(0x80 | ((u >> 6) & 0x3f) as u8);
        out.push(0x80 | (u & 0x3f) as u8);
    }
    proof {
        assert(out@ =~= old(out)@ + encode_scalar(c as u32));
    }
}

/// Decoding a query component in executable code; the result is exactly
/// `pct_decode` of the input.
pub fn pct_decode_chars(s: &Vec<char>) -> (r: Vec<char>)
    ensures
        r@ == pct_decode(s@),
{
    let mut bv: Vec<u8> = Vec::new();
    let mut i: usize = 0;
    proof {
        assert(s@.skip(0) =~= s@);
        assert(bv@ + pct_decode_bytes(s@) =~= pct_decode_bytes(s@));
    }
    while i < s.len()
        invariant
            i <= s@.len(),
            pct_decode_bytes(s@) == bv@ + pct_decode_bytes(s@.skip(i as int)),
        decreases s@.len() - i,
    {
        let c = s[i];
        if c == '%' && s.len() - i >= 3 && hex_digit_check(s[i + 1]) && hex_digit_check(s[i + 2]) {
            let v: u32 = hex_val_of(s[i + 1]) * 16 + hex_val_of(s[i + 2]);
            bv.push(v as u8);
            proof {
                let t = s@.skip(i as int);
                assert(t[0] == s@[i as int] && t[1] == s@[i as int + 1] && t[2] == s@[i as int
                    + 2]);
                assert(t.skip(3) =~= s@.skip(i as int + 3));
                assert(pct_decode_bytes(s@) =~= bv@ + pct_decode_bytes(s@.skip(i as int + 3)));
            }
            i = i + 3;
        } else {
            if c == '+' {
                bv.push(32u8);
            } else {
                push_utf8(&mut bv, c);
            }
            proof {
                let t = s@.skip(i as int);
                assert(t[0] == s@[i as int]);
                assert(t.skip(1) =~= s@.skip(i as int + 1));
                if t[0] == '%' && t.len() >= 3 && is_hex_digit(t[1]) && is_hex_digit(t[2]) {
                    assert(t[1] == s@[i as int + 1] && t[2] == s@[i as int + 2]);
                    assert(false);
                }
                assert(pct_decode_bytes(s@) =~= bv@ + pct_decode_bytes(s@.skip(i as int + 1)));
            }
            i = i + 1;
        }
    }
    proof {
        assert(s@.skip(i as int) =~= Seq::<char>::empty());
        assert(bv@ =~= pct_decode_bytes(s@));
    }
    let decoded = utf8_lossy_string(&bv);
    str_to_chars(decoded.as_str())
}

/// No character of an encoded string is a separator: everything the
/// encoder writes is an unreserved character, a `%`, or a hexadecimal
/// digit, so `&`, `=`, `?` and `#` never appear.
pub proof fn lemma_pct_encode_no_separator(s: Seq<char>)
    requires
        all_ascii(s),
    ensures
        forall|i: int|
            0 <= i < pct_encode(s).len() ==> pct_encode(s)[i] != '&' && pct_encode(s)[i] != '='
                && pct_encode(s)[i] != '#' && pct_encode(s)[i] != '?',
    decreases s.len(),
{
    if s.len() > 0 {
        lemma_pct_encode_no_separator(s.drop_first());
        let e = enc_char(s[0]);
        assert forall|i: int| 0 <= i < e.len() implies e[i] != '&' && e[i] != '=' && e[i] != '#'
            && e[i] != '?' by {
            if !is_unreserved(s[0]) {
                lemma_hex_digit_upper(s[0] as u32 as int / 16);
                lemma_hex_digit_upper(s[0] as u32 as int % 16);
            }
        }
        assert(forall|i: int|
            0 <= i < pct_encode(s).len() ==> pct_encode(s)[i] == if i < e.len() {
                e[i]
            } else {
                pct_encode(s.drop_first())[i - e.len()]
            });
    }
}

/// The bytes of an encoded ASCII string are its UTF-8 bytes.
proof fn lemma_pct_decode_bytes_of_encode(s: Seq<char>)
    requires
        all_ascii(s),
    ensures
        pct_decode_bytes(pct_encode(s)) == encode_utf8(s),
    decreases s.len(),
{
    if s.len() == 0 {
        assert(pct_decode_bytes(pct_encode(s)) =~= encode_utf8(s));
    } else {
        let c = s[0];
        let u = c as u32;
        let rest = s.drop_first();
        lemma_pct_decode_bytes_of_encode(rest);
        let e = pct_encode(s);
        assert(encode_utf8(s) == encode_scalar(u) + encode_utf8(rest));
        if is_unreserved(c) {
            assert(e == seq![c] + pct_encode(rest));
            assert(e[0] == c && c != '%' && c != '+');
            assert(e.skip(1) =~= pct_encode(rest));
            assert(pct_decode_bytes(e) == encode_scalar(u) + pct_decode_bytes(pct_encode(rest)));
            assert(pct_decode_bytes(e) =~= encode_utf8(s));
        } else {
            let hi = hex_digit_upper(u as int / 16);
            let lo = hex_digit_upper(u as int % 16);
            lemma_hex_digit_upper(u as int / 16);
            lemma_hex_digit_upper(u as int % 16);
            assert(e == seq!['%', hi, lo] + pct_encode(rest));
            assert(e[0] == '%' && e[1] == hi && e[2] == lo);
            assert(hex_val(hi) * 16 + hex_val(lo) == u);
            assert(u < 128 ==> (u & 0x7f) == u) by (bit_vector);
            assert(encode_scalar(u) =~= seq![(hex_val(hi) * 16 + hex_val(lo)) as u8]);
            assert(e.skip(3) =~= pct_encode(rest));
            assert(pct_decode_bytes(e) == seq![(hex_val(e[1]) * 16 + hex_val(e[2])) as u8]
                + pct_decode_bytes(pct_encode(rest)));
            assert(pct_decode_bytes(e) =~= encode_utf8(s));
        }
    }
}

/// Decoding inverts encoding: an ASCII string written out by the
/// encoder reads back as itself.
pub proof fn lemma_pct_round_trip(s: Seq<char>)
    requires
        all_ascii(s),
    ensures
        pct_decode(pct_encode(s)) == s,
{
    lemma_pct_decode_bytes_of_encode(s);
    encode_utf8_valid_utf8(s);
    encode_utf8_decode_utf8(s);
}

/// An ASCII string without `%` or `+` decodes to itself.
pub proof fn lemma_pct_decode_plain(s: Seq<char>)
    requires
        all_ascii(s),
        forall|i: int| 0 <= i < s.len() ==> s[i] != '%' && s[i] != '+',
    ensures
        pct_decode(s) == s,
{
    lemma_pct_decode_bytes_plain(s);
    encode_utf8_valid_utf8(s);
    encode_utf8_decode_utf8(s);
}

/// The bytes of a plain string are its UTF-8 bytes.
proof fn lemma_pct_decode_bytes_plain(s: Seq<char>)
    requires
        forall|i: int| 0 <= i < s.len() ==> s[i] != '%' && s[i] != '+',
    ensures
        pct_decode_bytes(s) == encode_utf8(s),
    decreases s.len(),
{
    if s.len() == 0 {
        assert(pct_decode_bytes(s) =~= encode_utf8(s));
    } else {
        assert(s.skip(1) =~= s.drop_first());
        lemma_pct_decode_bytes_plain(s.drop_first());
        assert(pct_decode_bytes(s) == encode_scalar(s[0] as u32) + pct_decode_bytes(
            s.drop_first(),
        ));
        assert(pct_decode_bytes(s) =~= encode_utf8(s));
    }
}

/// Encoding one more character extends the encoded text at its end.
pub proof fn lemma_pct_encode_snoc(a: Seq<char>, x: char)
    ensures
        pct_encode(a.push(x)) == pct_encode(a) + enc_char(x),
    decreases a.len(),
{
    if a.len() == 0 {
        assert(a.push(x)[0] == x);
        assert(a.push(x).drop_first() =~= Seq::<char>::empty());
        assert(pct_encode(Seq::<char>::empty()) == Seq::<char>::empty());
        assert(pct_encode(a.push(x)) == enc_char(x) + Seq::<char>::empty());
        assert(enc_char(x) + Seq::<char>::empty() =~= pct_encode(a) + enc_char(x));
    } else {
        lemma_pct_encode_snoc(a.drop_first(), x);
        assert(a.push(x)[0] == a[0]);
        assert(a.push(x).len() == a.len() + 1 > 0);
        assert(a.push(x).drop_first() =~= a.drop_first().push(x));
        assert(pct_encode(a.push(x)) == enc_char(a[0]) + pct_encode(a.drop_first().push(x)));
        assert(pct_encode(a) == enc_char(a[0]) + pct_encode(a.drop_first()));
        assert(enc_char(a[0]) + (pct_encode(a.drop_first()) + enc_char(x)) =~= (enc_char(a[0])
            + pct_encode(a.drop_first())) + enc_char(x));
    }
}

/// Encoding an ASCII string in executable code; the result is exactly
/// `pct_encode` of the input.
pub fn pct_encode_chars(s: &Vec<char>) -> (r: Vec<char>)
    requires
        all_ascii(s@),
    ensures
        r@ == pct_encode(s@),
{
    let mut r: Vec<char> = Vec::new();
    let mut i: usize = 0;
    proof {
        assert(s@.take(0) =~= Seq::<char>::empty());
        assert(r@ =~= pct_encode(s@.take(0)));
    }
    while i < s.len()
        invariant
            i <= s@.len(),
            all_ascii(s@),
            r@ == pct_encode(s@.take(i as int)),
        decreases s@.len() - i,
    {
        let c = s[i];
        let u = c as u32;
        if (48 <= u && u <= 57) || (65 <= u && u <= 90) || (97 <= u && u <= 122) || u == 45 || u
            == 46 || u == 95 || u == 126 {
            r.push(c);
        } else {
            r.push('%');
            r.push(hex_upper_of(u / 16));
            r.push(hex_upper_of(u % 16));
        }
        proof {
            lemma_pct_encode_snoc(s@.take(i as int), c);
            assert(s@.take(i as int).push(c) =~= s@.take(i + 1));
            assert(r@ =~= pct_encode(s@.take(i + 1)));
        }
        i = i + 1;
    }
    proof {
        assert(s@.take(s@.len() as int) =~= s@);
    }
    r
}

/// The upper-case hexadecimal digit of a value below 16, computed.
fn hex_upper_of(v: u32) -> (r: char)
    requires
        v < 16,
    ensures
        r == hex_digit_upper(v as int),
{
    if v < 10 {
        (48 + v as u8) as char
    } else {
        (55 + v as u8) as char
    }
}

} // verus!
