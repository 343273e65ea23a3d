//! The persisted form of a session record: a JSON object of the five
//! fields, with string values escaped as JSON asks (`\"`, `\\`, and
//! control characters as `\b`, `\t`, `\n`, `\f`, `\r` or `\u00hh`).
//! The writer puts the fields in their declared order with absent names
//! as `null` and no whitespace; the reader takes the field names in any
//! order, each at most once, whitespace between tokens, and an optional
//! name absent, `null`, or a string.

use vstd::prelude::*;
use crate::text::{
    chars_to_string, str_to_chars, append_str, is_hex_digit, hex_val, hex_digit_lower,
    hex_digit_check, hex_val_of,
};
use crate::query::chars_eq;
use crate::{SessionView, UserSession};

verus! {

/// The character written as two hexadecimal digits `h1` and `h2`.
pub open spec fn escaped_char(h1: char, h2: char) -> char {
    ((hex_val(h1) * 16 + hex_val(h2)) as u32) as char
}

/// The JSON escape of one character inside a string value.
pub open spec fn esc_char(c: char) -> Seq<char> {
    let u = c as u32;
    if c == '"' {
        seq!['\\', '"']
    } else if c == '\\' {
        seq!['\\', '\\']
    } else if u == 8 {
        seq!['\\', 'b']
    } else if u == 9 {
        seq!['\\', 't']
    } else if u == 10 {
        seq!['\\', 'n']
    } else if u == 12 {
        seq!['\\', 'f']
    } else if u == 13 {
        seq!['\\', 'r']
    } else if u < 32 {
        seq!['\\', 'u', '0', '0', hex_digit_lower(u as int / 16), hex_digit_lower(u as int % 16)]
    } else {
        seq![c]
    }
}

/// A string value with every character escaped.
pub open spec fn json_escape(s: Seq<char>) -> Seq<char>
    decreases s.len(),
{
    if s.len() == 0 {
        Seq::empty()
    } else {
        esc_char(s[0]) + json_escape(s.drop_first())
    }
}

/// A JSON string: the escaped value between double quotes.
pub open spec fn json_string(s: Seq<char>) -> Seq<char> {
    seq!['"'] + json_escape(s) + seq!['"']
}

/// An optional string: a JSON string when present, `null` when absent.
pub open spec fn json_opt_string(o: Option<Seq<char>>) -> Seq<char> {
    match o {
        Some(s) => json_string(s),
        None => "null"@,
    }
}

/// One rendered object member: the name, a colon, and the value.
pub open spec fn member_text(k: Seq<char>, v: Option<Seq<char>>) -> Seq<char> {
    json_string(k) + seq![':'] + json_opt_string(v)
}

/// The JSON text of a session record as it is written: one object with
/// the five fields in their declared order and no whitespace.
pub open spec fn session_json(v: SessionView) -> Seq<char> {
    seq!['{'] + member_text("sealed_session"@, Some(v.sealed_session)) + seq![','] + member_text(
        "user_id"@,
        Some(v.user_id),
    ) + seq![','] + member_text("email"@, Some(v.email)) + seq![','] + member_text(
        "first_name"@,
        v.first_name,
    ) + seq![','] + member_text("last_name"@, v.last_name) + seq!['}']
}

/// The JSON payload of a successful login, as the frontend is shown it:
/// one `user` object with the id, the email and the optional names —
/// the sealed token stays out.
pub open spec fn auth_success_payload_json(v: SessionView) -> Seq<char> {
    seq!['{'] + json_string("user"@) + seq![':'] + seq!['{'] + member_text("id"@, Some(v.user_id))
        + seq![','] + member_text("email"@, Some(v.email)) + seq![','] + member_text(
        "first_name"@,
        v.first_name,
    ) + seq![','] + member_text("last_name"@, v.last_name) + seq!['}'] + seq!['}']
}

/// The character an escape letter names, for the single-letter escapes.
pub open spec fn unescape(e: char) -> Option<char> {
    if e == '"' {
        Some('"')
    } else if e == '\\' {
        Some('\\')
    } else if e == '/' {
        Some('/')
    } else if e == 'b' {
        Some('\u{0008}')
    } else if e == 't' {
        Some('\u{0009}')
    } else if e == 'n' {
        Some('\u{000a}')
    } else if e == 'f' {
        Some('\u{000c}')
    } else if e == 'r' {
        Some('\u{000d}')
    } else {
        None
    }
}

/// Reading a JSON string body up to its closing quote: the value read
/// and what follows the quote. Escapes are undone; `\u00hh` names a
/// character by its code; a bare control character or a broken escape
/// is a parse error.
pub open spec fn parse_string_body(s: Seq<char>) -> Option<(Seq<char>, Seq<char>)>
    decreases s.len(),
{
    if s.len() == 0 {
        None
    } else if s[0] == '"' {
        Some((Seq::empty(), s.skip(1)))
    } else if s[0] == '\\' {
        if s.len() < 2 {
            None
        } else if s[1] == 'u' {
            if s.len() >= 6 && s[2] == '0' && s[3] == '0' && is_hex_digit(s[4]) && is_hex_digit(
                s[5],
            ) {
                match parse_string_body(s.skip(6)) {
                    Some((v, r)) => Some((seq![escaped_char(s[4], s[5])] + v, r)),
                    None => None,
                }
            } else {
                None
            }
        } else {
            match unescape(s[1]) {
                Some(c) => match parse_string_body(s.skip(2)) {
                    Some((v, r)) => Some((seq![c] + v, r)),
                    None => None,
                },
                None => None,
            }
        }
    } else if (s[0] as u32) < 32 {
        None
    } else {
        match parse_string_body(s.skip(1)) {
            Some((v, r)) => Some((seq![s[0]] + v, r)),
            None => None,
        }
    }
}

/// A whole JSON string: an opening quote, then its body.
pub open spec fn parse_json_string(s: Seq<char>) -> Option<(Seq<char>, Seq<char>)> {
    if s.len() >= 1 && s[0] == '"' {
        parse_string_body(s.skip(1))
    } else {
        None
    }
}

/// The rest of `s` after the literal `l`, when `s` starts with it.
pub open spec fn expect_lit(s: Seq<char>, l: Seq<char>) -> Option<Seq<char>> {
    if s.len() >= l.len() && s.take(l.len() as int) == l {
        Some(s.skip(l.len() as int))
    } else {
        None
    }
}

/// An optional string value: `null`, or a JSON string.
pub open spec fn parse_json_opt(s: Seq<char>) -> Option<(Option<Seq<char>>, Seq<char>)> {
    match expect_lit(s, "null"@) {
        Some(r) => Some((None, r)),
        None => match parse_json_string(s) {
            Some((v, r)) => Some((Some(v), r)),
            None => None,
        },
    }
}

/// Whether `c` is JSON whitespace.
pub open spec fn is_json_ws(c: char) -> bool {
    c == ' ' || c == '\t' || c == '\n' || c == '\r'
}

/// `s` without its leading JSON whitespace.
pub open spec fn skip_ws(s: Seq<char>) -> Seq<char>
    decreases s.len(),
{
    if s.len() > 0 && is_json_ws(s[0]) {
        skip_ws(s.drop_first())
    } else {
        s
    }
}

/// One object member: a name, a colon, and a string or `null` value,
/// with whitespace allowed around the tokens.
pub open spec fn parse_member(s: Seq<char>) -> Option<((Seq<char>, Option<Seq<char>>), Seq<char>)> {
    match parse_json_string(skip_ws(s)) {
        None => None,
        Some((k, r1)) => {
            let r2 = skip_ws(r1);
            if r2.len() >= 1 && r2[0] == ':' {
                match parse_json_opt(skip_ws(r2.skip(1))) {
                    None => None,
                    Some((v, r3)) => Some(((k, v), r3)),
                }
            } else {
                None
            }
        },
    }
}

/// A comma-separated run of members closed by `}`; `fuel` bounds how
/// many, enough for the five a record can carry.
pub open spec fn parse_members(s: Seq<char>, fuel: nat) -> Option<
    (Seq<(Seq<char>, Option<Seq<char>>)>, Seq<char>),
>
    decreases fuel,
{
    if fuel == 0 {
        None
    } else {
        match parse_member(s) {
            None => None,
            Some((m, r)) => {
                let r2 = skip_ws(r);
                if r2.len() >= 1 && r2[0] == ',' {
                    match parse_members(r2.skip(1), (fuel - 1) as nat) {
                        None => None,
                        Some((ms, r3)) => Some((seq![m] + ms, r3)),
                    }
                } else if r2.len() >= 1 && r2[0] == '}' {
                    Some((seq![m], r2.skip(1)))
                } else {
                    None
                }
            },
        }
    }
}

/// The members of the stored object: a brace-bound, possibly empty,
/// comma-separated list.
pub open spec fn parse_object(s: Seq<char>) -> Option<
    (Seq<(Seq<char>, Option<Seq<char>>)>, Seq<char>),
> {
    let t = skip_ws(s);
    if t.len() >= 1 && t[0] == '{' {
        let u = skip_ws(t.skip(1));
        if u.len() >= 1 && u[0] == '}' {
            Some((Seq::empty(), u.skip(1)))
        } else {
            parse_members(t.skip(1), 5)
        }
    } else {
        None
    }
}

/// The value of the member named `k`, when one is present.
pub open spec fn member_lookup(ms: Seq<(Seq<char>, Option<Seq<char>>)>, k: Seq<char>) -> Option<
    Option<Seq<char>>,
>
    decreases ms.len(),
{
    if ms.len() == 0 {
        None
    } else if ms[0].0 == k {
        Some(ms[0].1)
    } else {
        member_lookup(ms.drop_first(), k)
    }
}

/// Whether `k` is one of the record's five field names.
pub open spec fn known_key(k: Seq<char>) -> bool {
    k == "sealed_session"@ || k == "user_id"@ || k == "email"@ || k == "first_name"@ || k
        == "last_name"@
}

/// Whether the members carry only the five field names, each at most
/// once.
pub open spec fn member_keys_ok(ms: Seq<(Seq<char>, Option<Seq<char>>)>) -> bool {
    &&& forall|i: int| 0 <= i < ms.len() ==> known_key(#[trigger] ms[i].0)
    &&& forall|i: int, j: int|
        0 <= i < j < ms.len() ==> #[trigger] ms[i].0 != #[trigger] ms[j].0
}

/// An optional name: its string when present, absent when the member is
/// missing or `null`.
pub open spec fn optional_of(ms: Seq<(Seq<char>, Option<Seq<char>>)>, k: Seq<char>) -> Option<
    Seq<char>,
> {
    match member_lookup(ms, k) {
        Some(Some(v)) => Some(v),
        _ => None,
    }
}

/// Reading a session record back from JSON text: one object holding the
/// five field names in any order, each at most once, whitespace between
/// tokens allowed, the required fields present as strings, the optional
/// names absent, `null` or strings; anything else is rejected.
pub open spec fn parse_session_json(s: Seq<char>) -> Option<SessionView> {
    match parse_object(s) {
        None => None,
        Some((ms, rest)) => {
            if skip_ws(rest).len() == 0 && member_keys_ok(ms) && (member_lookup(
                ms,
                "sealed_session"@,
            ) matches Some(Some(_))) && (member_lookup(ms, "user_id"@) matches Some(Some(_))) && (
            member_lookup(ms, "email"@) matches Some(Some(_))) {
                Some(
                    SessionView {
                        sealed_session: member_lookup(ms, "sealed_session"@)->Some_0->Some_0,
                        user_id: member_lookup(ms, "user_id"@)->Some_0->Some_0,
                        email: member_lookup(ms, "email"@)->Some_0->Some_0,
                        first_name: optional_of(ms, "first_name"@),
                        last_name: optional_of(ms, "last_name"@),
                    },
                )
            } else {
                None
            }
        },
    }
}

/// Escaping one more character extends the escaped text at its end.
pub proof fn lemma_json_escape_snoc(a: Seq<char>, x: char)
    ensures
        json_escape(a.push(x)) == json_escape(a) + esc_char(x),
    decreases a.len(),
{
    if a.len() == 0 {
        assert(a.push(x)[0] == x);
        assert(a.push(x).drop_first() =~= Seq::<char>::empty());
        assert(json_escape(Seq::<char>::empty()) == Seq::<char>::empty());
        assert(json_escape(a.push(x)) == esc_char(x) + Seq::<char>::empty());
        assert(esc_char(x) + Seq::<char>::empty() =~= json_escape(a) + esc_char(x));
    } else {
        lemma_json_escape_snoc(a.drop_first(), x);
        assert(a.push(x)[0] == a[0]);
        assert(a.push(x).len() == a.len() + 1 > 0);
        assert(a.push(x).drop_first() =~= a.drop_first().push(x));
        assert(json_escape(a.push(x)) == esc_char(a[0]) + json_escape(a.drop_first().push(x)));
        assert(json_escape(a.drop_first().push(x)) == json_escape(a.drop_first()) + esc_char(x));
        assert(json_escape(a) == esc_char(a[0]) + json_escape(a.drop_first()));
        assert(esc_char(a[0]) + (json_escape(a.drop_first()) + esc_char(x)) =~= (esc_char(a[0])
            + json_escape(a.drop_first())) + esc_char(x));
    }
}

/// The lower-case hexadecimal digit of a value below 16, computed.
fn hex_lower_of(v: u32) -> (r: char)
    requires
        v < 16,
    ensures
        r == hex_digit_lower(v as int),
{
    if v < 10 {
        (48 + v as u8) as char
    } else {
        (87 + v as u8) as char
    }
}

/// Appends the JSON string for `s`, quotes and escapes included.
fn append_json_string(out: &mut Vec<char>, s: &str)
    ensures
        final(out)@ == old(out)@ + json_string(s@),
{
    let chars = str_to_chars(s);
    out.push('"');
    let mut i: usize = 0;
    proof {
        assert(s@.take(0) =~= Seq::<char>::empty());
        assert(out@ =~= old(out)@ + seq!['"'] + json_escape(s@.take(0)));
    }
    while i < chars.len()
        invariant
            chars@ == s@,
            i <= s@.len(),
            out@ == old(out)@ + seq!['"'] + json_escape(s@.take(i as int)),
        decreases s@.len() - i,
    {
        let c = chars[i];
        let u = c as u32;
        if c == '"' {
            out.push('\\');
            out.push('"');
        } else if c == '\\' {
            out.push('\\');
            out.push('\\');
        } else if u == 8 {
            out.push('\\');
            out.push('b');
        } else if u == 9 {
            out.push('\\');
            out.push('t');
        } else if u == 10 {
            out.push('\\');
            out.push('n');
        } else if u == 12 {
            out.push('\\');
            out.push('f');
        } else if u == 13 {
            out.push('\\');
            out.push('r');
        } else if u < 32 {
            out.push('\\');
            out.push('u');
            out.push('0');
            out.push('0');
            out.push(hex_lower_of(u / 16));
            out.push(hex_lower_of(u % 16));
        } else {
            out.push(c);
        }
        proof {
            lemma_json_escape_snoc(s@.take(i as int), c);
            assert(s@.take(i as int).push(c) =~= s@.take(i + 1));
            assert(out@ =~= old(out)@ + seq!['"'] + json_escape(s@.take(i + 1)));
        }
        i = i + 1;
    }
    out.push('"');
    proof {
        assert(s@.take(s@.len() as int) =~= s@);
        assert(out@ =~= old(out)@ + json_string(s@));
    }
}

/// Appends `null` or the JSON string of a present value.
fn append_json_opt(out: &mut Vec<char>, o: &Option<String>)
    ensures
        final(out)@ == old(out)@ + json_opt_string(o.deep_view()),
{
    match o {
        Some(s) => append_json_string(out, s.as_str()),
        None => append_str(out, "null"),
    }
}

/// The JSON text of a session record, as it is persisted: exactly
/// `session_json` of the record.
pub fn session_to_json(s: &UserSession) -> (r: String)
    ensures
        r@ == session_json(s@),
{
    let mut out: Vec<char> = Vec::new();
    out.push('{');
    append_json_string(&mut out, "sealed_session");
    out.push(':');
    append_json_string(&mut out, s.sealed_session.as_str());
    out.push(',');
    append_json_string(&mut out, "user_id");
    out.push(':');
    append_json_string(&mut out, s.user_id.as_str());
    out.push(',');
    append_json_string(&mut out, "email");
    out.push(':');
    append_json_string(&mut out, s.email.as_str());
    out.push(',');
    append_json_string(&mut out, "first_name");
    out.push(':');
    append_json_opt(&mut out, &s.first_name);
    out.push(',');
    append_json_string(&mut out, "last_name");
    out.push(':');
    append_json_opt(&mut out, &s.last_name);
    out.push('}');
    proof {
        assert(out@ =~= session_json(s@));
    }
    chars_to_string(&out)
}

/// The auth-success payload shown to the frontend: exactly
/// `auth_success_payload_json` of the record, the token left out.
pub fn auth_success_payload(s: &UserSession) -> (r: String)
    ensures
        r@ == auth_success_payload_json(s@),
{
    let mut out: Vec<char> = Vec::new();
    out.push('{');
    append_json_string(&mut out, "user");
    out.push(':');
    out.push('{');
    append_json_string(&mut out, "id");
    out.push(':');
    append_json_string(&mut out, s.user_id.as_str());
    out.push(',');
    append_json_string(&mut out, "email");
    out.push(':');
    append_json_string(&mut out, s.email.as_str());
    out.push(',');
    append_json_string(&mut out, "first_name");
    out.push(':');
    append_json_opt(&mut out, &s.first_name);
    out.push(',');
    append_json_string(&mut out, "last_name");
    out.push(':');
    append_json_opt(&mut out, &s.last_name);
    out.push('}');
    out.push('}');
    proof {
        assert(out@ =~= auth_success_payload_json(s@));
    }
    chars_to_string(&out)
}

/// A text that starts with the literal `l` is read past it.
pub proof fn lemma_expect_lit(l: Seq<char>, rest: Seq<char>)
    ensures
        expect_lit(l + rest, l) == Some(rest),
{
    assert((l + rest).take(l.len() as int) =~= l);
    assert((l + rest).skip(l.len() as int) =~= rest);
}

/// Reading a string body undoes escaping: the escaped text of `s`,
/// its closing quote, and anything after parse back as `s` and that
/// remainder.
pub proof fn lemma_parse_escaped(s: Seq<char>, rest: Seq<char>)
    ensures
        parse_string_body(json_escape(s) + seq!['"'] + rest) == Some((s, rest)),
    decreases s.len(),
{
    let t = json_escape(s) + seq!['"'] + rest;
    if s.len() == 0 {
        assert(json_escape(s) == Seq::<char>::empty());
        assert(t[0] == '"');
        assert(t.skip(1) =~= rest);
    } else {
        let c = s[0];
        let u = c as u32;
        let rs = s.drop_first();
        let tail = json_escape(rs) + seq!['"'] + rest;
        lemma_parse_escaped(rs, rest);
        assert(json_escape(s) == esc_char(c) + json_escape(rs));
        assert(t =~= esc_char(c) + tail);
        assert(seq![c] + rs =~= s);
        if c == '"' || c == '\\' {
            assert(t[0] == '\\' && t.len() >= 2 && t[1] == c);
            assert(unescape(c) == Some(c));
            assert(t.skip(2) =~= tail);
            assert(parse_string_body(t) == Some((s, rest)));
        } else if u == 8 || u == 9 || u == 10 || u == 12 || u == 13 {
            let e = esc_char(c)[1];
            assert(t[0] == '\\' && t.len() >= 2 && t[1] == e);
            vstd::utf8::char_u32_cast(c, u);
            if u == 8 {
                vstd::utf8::char_u32_cast('\u{0008}', 8);
            } else if u == 9 {
                vstd::utf8::char_u32_cast('\u{0009}', 9);
            } else if u == 10 {
                vstd::utf8::char_u32_cast('\u{000a}', 10);
            } else if u == 12 {
                vstd::utf8::char_u32_cast('\u{000c}', 12);
            } else {
                vstd::utf8::char_u32_cast('\u{000d}', 13);
            }
            assert(unescape(e) == Some(c));
            assert(t.skip(2) =~= tail);
            assert(parse_string_body(t) == Some((s, rest)));
        } else if u < 32 {
            let h1 = hex_digit_lower(u as int / 16);
            let h2 = hex_digit_lower(u as int % 16);
            crate::text::lemma_hex_digit_lower(u as int / 16);
            crate::text::lemma_hex_digit_lower(u as int % 16);
            assert(t[0] == '\\' && t.len() >= 6 && t[1] == 'u' && t[2] == '0' && t[3] == '0'
                && t[4] == h1 && t[5] == h2);
            assert(hex_val(h1) * 16 + hex_val(h2) == u);
            vstd::utf8::char_u32_cast(c, u);
            assert(escaped_char(h1, h2) == c);
            assert(t.skip(6) =~= tail);
            assert(parse_string_body(t) == Some((s, rest)));
        } else {
            assert(t[0] == c);
            assert(c != '"' && c != '\\' && !(u < 32));
            assert(t.skip(1) =~= tail);
            assert(parse_string_body(t) == Some((s, rest)));
        }
    }
}

/// A rendered JSON string parses back to its value.
pub proof fn lemma_parse_json_string_of(s: Seq<char>, rest: Seq<char>)
    ensures
        parse_json_string(json_string(s) + rest) == Some((s, rest)),
{
    let t = json_string(s) + rest;
    assert(t[0] == '"');
    assert(t.skip(1) =~= json_escape(s) + seq!['"'] + rest);
    lemma_parse_escaped(s, rest);
}

/// A rendered optional string parses back to its value: `null` to an
/// absent one, a JSON string to a present one.
pub proof fn lemma_parse_json_opt_of(o: Option<Seq<char>>, rest: Seq<char>)
    ensures
        parse_json_opt(json_opt_string(o) + rest) == Some((o, rest)),
{
    reveal_strlit("null");
    match o {
        None => {
            lemma_expect_lit("null"@, rest);
        },
        Some(s) => {
            let t = json_string(s) + rest;
            assert(t[0] == '"');
            if t.len() >= "null"@.len() && t.take("null"@.len() as int) == "null"@ {
                assert(t.take("null"@.len() as int)[0] == t[0]);
                assert(false);
            }
            lemma_parse_json_string_of(s, rest);
        },
    }
}

/// One rendered member followed by anything reads back as that member.
proof fn lemma_parse_member_of(k: Seq<char>, val: Option<Seq<char>>, rest: Seq<char>)
    ensures
        parse_member(member_text(k, val) + rest) == Some(((k, val), rest)),
{
    let after_key = seq![':'] + (json_opt_string(val) + rest);
    let t = member_text(k, val) + rest;
    assert(t =~= json_string(k) + after_key);
    assert(json_string(k)[0] == '"');
    assert((json_string(k) + after_key)[0] == '"');
    assert(skip_ws(json_string(k) + after_key) == json_string(k) + after_key);
    lemma_parse_json_string_of(k, after_key);
    assert(after_key[0] == ':');
    assert(skip_ws(after_key) == after_key);
    assert(after_key.skip(1) =~= json_opt_string(val) + rest);
    match val {
        Some(s) => {
            assert(json_string(s)[0] == '"');
            assert((json_opt_string(val) + rest)[0] == '"');
        },
        None => {
            reveal_strlit("null");
            assert((json_opt_string(val) + rest)[0] == 'n');
        },
    }
    assert(skip_ws(json_opt_string(val) + rest) == json_opt_string(val) + rest);
    lemma_parse_json_opt_of(val, rest);
}

/// A session record written out as JSON reads back as the very same
/// record: every field value kept, and an absent optional name still
/// absent.
#[verifier::rlimit(60)]
pub proof fn lemma_session_json_round_trip(v: SessionView)
    ensures
        parse_session_json(session_json(v)) == Some(v),
{
    reveal_strlit("sealed_session");
    reveal_strlit("user_id");
    reveal_strlit("email");
    reveal_strlit("first_name");
    reveal_strlit("last_name");
    assert("sealed_session"@.len() == 14 && "user_id"@.len() == 7 && "email"@.len() == 5
        && "first_name"@.len() == 10 && "last_name"@.len() == 9);
    let m1 = ("sealed_session"@, Some(v.sealed_session));
    let m2 = ("user_id"@, Some(v.user_id));
    let m3 = ("email"@, Some(v.email));
    let m4 = ("first_name"@, v.first_name);
    let m5 = ("last_name"@, v.last_name);
    let r5 = seq!['}'];
    let c5 = member_text("last_name"@, v.last_name) + r5;
    let c4 = member_text("first_name"@, v.first_name) + (seq![','] + c5);
    let c3 = member_text("email"@, Some(v.email)) + (seq![','] + c4);
    let c2 = member_text("user_id"@, Some(v.user_id)) + (seq![','] + c3);
    let c1 = member_text("sealed_session"@, Some(v.sealed_session)) + (seq![','] + c2);
    let total = session_json(v);
    assert(total =~= seq!['{'] + c1);
    // The object opens at the brace, and the first member follows it.
    assert(total[0] == '{');
    assert(skip_ws(total) == total);
    assert((seq!['{'] + c1).skip(1) =~= c1);
    assert(json_string("sealed_session"@)[0] == '"');
    assert(c1[0] == '"');
    assert(skip_ws(c1) == c1);
    // The five members parse in sequence.
    lemma_parse_member_of("sealed_session"@, Some(v.sealed_session), seq![','] + c2);
    lemma_parse_member_of("user_id"@, Some(v.user_id), seq![','] + c3);
    lemma_parse_member_of("email"@, Some(v.email), seq![','] + c4);
    lemma_parse_member_of("first_name"@, v.first_name, seq![','] + c5);
    lemma_parse_member_of("last_name"@, v.last_name, r5);
    assert((seq![','] + c2)[0] == ',' && (seq![','] + c3)[0] == ',' && (seq![','] + c4)[0] == ','
        && (seq![','] + c5)[0] == ',');
    assert(skip_ws(seq![','] + c2) == seq![','] + c2);
    assert(skip_ws(seq![','] + c3) == seq![','] + c3);
    assert(skip_ws(seq![','] + c4) == seq![','] + c4);
    assert(skip_ws(seq![','] + c5) == seq![','] + c5);
    assert(skip_ws(r5) == r5);
    assert((seq![','] + c2).skip(1) =~= c2);
    assert((seq![','] + c3).skip(1) =~= c3);
    assert((seq![','] + c4).skip(1) =~= c4);
    assert((seq![','] + c5).skip(1) =~= c5);
    assert(r5.skip(1) =~= Seq::<char>::empty());
    assert(parse_members(c5, 1) == Some((seq![m5], Seq::<char>::empty())));
    assert(parse_members(c4, 2) == Some((seq![m4] + seq![m5], Seq::<char>::empty())));
    assert(parse_members(c3, 3) == Some((seq![m3] + (seq![m4] + seq![m5]), Seq::<char>::empty())));
    assert(parse_members(c2, 4) == Some(
        (seq![m2] + (seq![m3] + (seq![m4] + seq![m5])), Seq::<char>::empty()),
    ));
    assert(parse_members(c1, 5) == Some(
        (seq![m1] + (seq![m2] + (seq![m3] + (seq![m4] + seq![m5]))), Seq::<char>::empty()),
    ));
    let ms = seq![m1, m2, m3, m4, m5];
    assert(seq![m1] + (seq![m2] + (seq![m3] + (seq![m4] + seq![m5]))) =~= ms);
    assert(parse_object(total) == Some((ms, Seq::<char>::empty())));
    // The members carry the five names once each, and each name finds
    // its field.
    assert(skip_ws(Seq::<char>::empty()) == Seq::<char>::empty());
    assert(forall|i: int| 0 <= i < ms.len() ==> known_key(#[trigger] ms[i].0));
    assert(forall|i: int, j: int|
        0 <= i < j < ms.len() ==> #[trigger] ms[i].0 != #[trigger] ms[j].0);
    let ms1 = seq![m2, m3, m4, m5];
    let ms2 = seq![m3, m4, m5];
    let ms3 = seq![m4, m5];
    let ms4 = seq![m5];
    assert(ms.drop_first() =~= ms1);
    assert(ms1.drop_first() =~= ms2);
    assert(ms2.drop_first() =~= ms3);
    assert(ms3.drop_first() =~= ms4);
    assert(member_lookup(ms, "sealed_session"@) == Some(m1.1));
    assert(member_lookup(ms1, "user_id"@) == Some(m2.1));
    assert(member_lookup(ms, "user_id"@) == Some(m2.1));
    assert(member_lookup(ms2, "email"@) == Some(m3.1));
    assert(member_lookup(ms1, "email"@) == Some(m3.1));
    assert(member_lookup(ms, "email"@) == Some(m3.1));
    assert(member_lookup(ms3, "first_name"@) == Some(m4.1));
    assert(member_lookup(ms2, "first_name"@) == Some(m4.1));
    assert(member_lookup(ms1, "first_name"@) == Some(m4.1));
    assert(member_lookup(ms, "first_name"@) == Some(m4.1));
    assert(member_lookup(ms4, "last_name"@) == Some(m5.1));
    assert(member_lookup(ms3, "last_name"@) == Some(m5.1));
    assert(member_lookup(ms2, "last_name"@) == Some(m5.1));
    assert(member_lookup(ms1, "last_name"@) == Some(m5.1));
    assert(member_lookup(ms, "last_name"@) == Some(m5.1));
    assert(parse_session_json(total) matches Some(w) && w =~= v);
}

/// Steps over the literal `l` at position `pos`, handing back the
/// position after it; decided exactly as `expect_lit` on the suffix.
fn expect_lit_at(u: &Vec<char>, pos: usize, l: &str) -> (r: Option<usize>)
    requires
        pos <= u@.len(),
    ensures
        match r {
            Some(p2) => pos <= p2 <= u@.len() && expect_lit(u@.skip(pos as int), l@) == Some(
                u@.skip(p2 as int),
            ),
            None => expect_lit(u@.skip(pos as int), l@) is None,
        },
{
    let lc = str_to_chars(l);
    let ghost t = u@.skip(pos as int);
    let ulen = u.len();
    if ulen - pos < lc.len() {
        return None;
    }
    for i in 0..lc.len()
        invariant
            lc@ == l@,
            pos <= u@.len(),
            ulen == u@.len(),
            t == u@.skip(pos as int),
            u@.len() - pos >= lc@.len(),
            forall|m: int| 0 <= m < i ==> t[m] == l@[m],
    {
        if u[pos + i] != lc[i] {
            proof {
                assert(t[i as int] == u@[pos + i]);
                if t.len() >= l@.len() && t.take(l@.len() as int) == l@ {
                    assert(t.take(l@.len() as int)[i as int] == t[i as int]);
                    assert(false);
                }
            }
            return None;
        }
        proof {
            assert(t[i as int] == u@[pos + i]);
        }
    }
    proof {
        assert(t.take(l@.len() as int) =~= l@);
        assert(t.skip(l@.len() as int) =~= u@.skip(pos + l@.len()));
    }
    Some(pos + lc.len())
}

/// Reads a JSON string body starting at `pos` (just after the opening
/// quote): the decoded value and the position after the closing quote;
/// decided exactly as `parse_string_body` on the suffix.
fn parse_string_body_at(u: &Vec<char>, pos: usize) -> (r: Option<(Vec<char>, usize)>)
    requires
        pos <= u@.len(),
    ensures
        match r {
            Some(p) => p.1 <= u@.len() && parse_string_body(u@.skip(pos as int)) == Some(
                (p.0@, u@.skip(p.1 as int)),
            ),
            None => parse_string_body(u@.skip(pos as int)) is None,
        },
{
    let mut acc: Vec<char> = Vec::new();
    let mut cur: usize = pos;
    while cur < u.len()
        invariant
            pos <= cur <= u@.len(),
            parse_string_body(u@.skip(pos as int)) == match parse_string_body(
                u@.skip(cur as int),
            ) {
                Some((v, r)) => Some((acc@ + v, r)),
                None => None::<(Seq<char>, Seq<char>)>,
            },
        decreases u@.len() - cur,
    {
        let ghost t = u@.skip(cur as int);
        proof {
            assert(t[0] == u@[cur as int]);
        }
        let c = u[cur];
        if c == '"' {
            proof {
                assert(t.skip(1) =~= u@.skip(cur + 1));
                assert(acc@ + Seq::<char>::empty() =~= acc@);
            }
            return Some((acc, cur + 1));
        } else if c == '\\' {
            if u.len() - cur < 2 {
                proof {
                    assert(parse_string_body(t) is None);
                }
                return None;
            }
            proof {
                assert(t[1] == u@[cur + 1]);
            }
            let e = u[cur + 1];
            if e == 'u' {
                if u.len() - cur >= 6 {
                    proof {
                        assert(t[2] == u@[cur + 2] && t[3] == u@[cur + 3] && t[4] == u@[cur + 4]
                            && t[5] == u@[cur + 5]);
                    }
                    let d1 = u[cur + 4];
                    let d2 = u[cur + 5];
                    if u[cur + 2] == '0' && u[cur + 3] == '0' && hex_digit_check(d1)
                        && hex_digit_check(d2) {
                        let v: u32 = hex_val_of(d1) * 16 + hex_val_of(d2);
                        acc.push((v as u8) as char);
                        proof {
                            assert(t.skip(6) =~= u@.skip(cur + 6));
                            assert((v as u8) as char == escaped_char(t[4], t[5]));
                            let pn = parse_string_body(u@.skip(cur + 6));
                            if pn is Some {
                                let (vv, rr) = pn->Some_0;
                                assert(acc@ + vv =~= acc@.drop_last() + (seq![escaped_char(
                                    t[4],
                                    t[5],
                                )] + vv));
                            }
                        }
                        cur = cur + 6;
                    } else {
                        return None;
                    }
                } else {
                    return None;
                }
            } else if e == '"' || e == '\\' || e == '/' || e == 'b' || e == 't' || e == 'n' || e
                == 'f' || e == 'r' {
                let d: char = if e == 'b' {
                    8u8 as char
                } else if e == 't' {
                    9u8 as char
                } else if e == 'n' {
                    10u8 as char
                } else if e == 'f' {
                    12u8 as char
                } else if e == 'r' {
                    13u8 as char
                } else {
                    e
                };
                acc.push(d);
                proof {
                    assert(unescape(t[1]) == Some(d));
                    assert(t.skip(2) =~= u@.skip(cur + 2));
                    let pn = parse_string_body(u@.skip(cur + 2));
                    if pn is Some {
                        let (vv, rr) = pn->Some_0;
                        assert(acc@ + vv =~= acc@.drop_last() + (seq![d] + vv));
                    }
                }
                cur = cur + 2;
            } else {
                proof {
                    assert(unescape(t[1]) is None);
                }
                return None;
            }
        } else if (c as u32) < 32 {
            return None;
        } else {
            acc.push(c);
            proof {
                assert(t.skip(1) =~= u@.skip(cur + 1));
                let pn = parse_string_body(u@.skip(cur + 1));
                if pn is Some {
                    let (vv, rr) = pn->Some_0;
                    assert(acc@ + vv =~= acc@.drop_last() + (seq![c] + vv));
                }
            }
            cur = cur + 1;
        }
    }
    proof {
        assert(u@.skip(cur as int) =~= Seq::<char>::empty());
    }
    None
}

/// Reads a whole JSON string starting at `pos`: opening quote, body,
/// closing quote.
fn parse_json_string_at(u: &Vec<char>, pos: usize) -> (r: Option<(Vec<char>, usize)>)
    requires
        pos <= u@.len(),
    ensures
        match r {
            Some(p) => p.1 <= u@.len() && parse_json_string(u@.skip(pos as int)) == Some(
                (p.0@, u@.skip(p.1 as int)),
            ),
            None => parse_json_string(u@.skip(pos as int)) is None,
        },
{
    if pos < u.len() && u[pos] == '"' {
        proof {
            assert(u@.skip(pos as int)[0] == u@[pos as int]);
            assert(u@.skip(pos as int).skip(1) =~= u@.skip(pos + 1));
        }
        parse_string_body_at(u, pos + 1)
    } else {
        proof {
            if pos < u.len() {
                assert(u@.skip(pos as int)[0] == u@[pos as int]);
            }
        }
        None
    }
}

/// Reads `null` or a JSON string starting at `pos`.
fn parse_json_opt_at(u: &Vec<char>, pos: usize) -> (r: Option<(Option<Vec<char>>, usize)>)
    requires
        pos <= u@.len(),
    ensures
        match r {
            Some(p) => p.1 <= u@.len() && ({
                let inner = match p.0 {
                    Some(v) => Some(v@),
                    None => None,
                };
                parse_json_opt(u@.skip(pos as int)) == Some((inner, u@.skip(p.1 as int)))
            }),
            None => parse_json_opt(u@.skip(pos as int)) is None,
        },
{
    match expect_lit_at(u, pos, "null") {
        Some(p2) => Some((None, p2)),
        None => match parse_json_string_at(u, pos) {
            Some((v, p2)) => Some((Some(v), p2)),
            None => None,
        },
    }
}

/// A member whose name is present among `ms` is found by lookup.
proof fn lemma_member_lookup_present(ms: Seq<(Seq<char>, Option<Seq<char>>)>, i: int)
    requires
        0 <= i < ms.len(),
    ensures
        member_lookup(ms, ms[i].0) is Some,
    decreases ms.len(),
{
    if ms[0].0 != ms[i].0 {
        assert(i > 0);
        assert(ms.drop_first()[i - 1] == ms[i]);
        lemma_member_lookup_present(ms.drop_first(), i - 1);
    }
}

/// Looking a name up after one more member: the earlier members answer
/// first, the new one only when they do not.
proof fn lemma_member_lookup_push(
    ms: Seq<(Seq<char>, Option<Seq<char>>)>,
    m: (Seq<char>, Option<Seq<char>>),
    k: Seq<char>,
)
    ensures
        member_lookup(ms.push(m), k) == if member_lookup(ms, k) is Some {
            member_lookup(ms, k)
        } else if m.0 == k {
            Some(m.1)
        } else {
            None
        },
    decreases ms.len(),
{
    if ms.len() == 0 {
        assert(ms.push(m)[0] == m);
        assert(ms.push(m).drop_first() =~= Seq::<(Seq<char>, Option<Seq<char>>)>::empty());
        assert(member_lookup(Seq::<(Seq<char>, Option<Seq<char>>)>::empty(), k) is None);
        assert(member_lookup(ms, k) is None);
    } else {
        assert(ms.push(m)[0] == ms[0]);
        assert(ms.push(m).drop_first() =~= ms.drop_first().push(m));
        lemma_member_lookup_push(ms.drop_first(), m, k);
    }
}

/// What a member slot of the reader stands for: unseen, seen as
/// `null`, or seen as a string.
pub open spec fn slot_view(slot: Option<Option<Vec<char>>>) -> Option<Option<Seq<char>>> {
    match slot {
        None => None,
        Some(None) => Some(None),
        Some(Some(v)) => Some(Some(v@)),
    }
}

/// Whether a character vector holds the characters of a string slice.
fn chars_eq_str(a: &Vec<char>, b: &str) -> (r: bool)
    ensures
        r == (a@ == b@),
{
    let bc = str_to_chars(b);
    chars_eq(a, &bc)
}

/// The position after the JSON whitespace at `pos`.
fn skip_ws_at(u: &Vec<char>, pos: usize) -> (r: usize)
    requires
        pos <= u@.len(),
    ensures
        pos <= r <= u@.len(),
        skip_ws(u@.skip(pos as int)) == u@.skip(r as int),
{
    let mut j: usize = pos;
    while j < u.len()
        invariant
            pos <= j <= u@.len(),
            skip_ws(u@.skip(pos as int)) == skip_ws(u@.skip(j as int)),
        decreases u@.len() - j,
    {
        let c = u[j];
        if c == ' ' || c == '\t' || c == '\n' || c == '\r' {
            proof {
                let t = u@.skip(j as int);
                assert(t[0] == u@[j as int]);
                assert(t.drop_first() =~= u@.skip(j as int + 1));
            }
            j = j + 1;
        } else {
            proof {
                let t = u@.skip(j as int);
                assert(t[0] == u@[j as int]);
                assert(skip_ws(t) == t);
            }
            return j;
        }
    }
    proof {
        assert(u@.skip(j as int) =~= Seq::<char>::empty());
        assert(skip_ws(u@.skip(j as int)) == u@.skip(j as int));
    }
    j
}

/// Reads one object member starting at `pos`: its name and its string
/// or `null` value; decided exactly as `parse_member` on the suffix.
fn parse_member_at(u: &Vec<char>, pos: usize) -> (r: Option<
    ((Vec<char>, Option<Vec<char>>), usize),
>)
    requires
        pos <= u@.len(),
    ensures
        match r {
            Some(x) => x.1 <= u@.len() && parse_member(u@.skip(pos as int)) == Some(
                (
                    (
                        x.0.0@,
                        match x.0.1 {
                            Some(v) => Some(v@),
                            None => None,
                        },
                    ),
                    u@.skip(x.1 as int),
                ),
            ),
            None => parse_member(u@.skip(pos as int)) is None,
        },
{
    let p1 = skip_ws_at(u, pos);
    match parse_json_string_at(u, p1) {
        None => None,
        Some((k, p2)) => {
            let p3 = skip_ws_at(u, p2);
            if p3 < u.len() && u[p3] == ':' {
                proof {
                    assert(u@.skip(p3 as int)[0] == u@[p3 as int]);
                    assert(u@.skip(p3 as int).skip(1) =~= u@.skip(p3 as int + 1));
                }
                let p4 = skip_ws_at(u, p3 + 1);
                match parse_json_opt_at(u, p4) {
                    None => None,
                    Some((v, p5)) => Some(((k, v), p5)),
                }
            } else {
                proof {
                    if p3 < u.len() {
                        assert(u@.skip(p3 as int)[0] == u@[p3 as int]);
                    } else {
                        assert(u@.skip(p3 as int) =~= Seq::<char>::empty());
                    }
                }
                None
            }
        },
    }
}

/// Reads a session record back from JSON text: exactly the records
/// whose text `parse_session_json` accepts, with exactly its fields.
#[verifier::rlimit(60)]
pub fn session_from_json(s: &str) -> (r: Option<UserSession>)
    ensures
        (r is Some) == (parse_session_json(s@) is Some),
        r matches Some(sess) ==> parse_session_json(s@) == Some(sess@),
{
    let u = str_to_chars(s);
    proof {
        assert(u@.skip(0) =~= u@);
    }
    let t0 = skip_ws_at(&u, 0);
    if t0 == u.len() {
        proof {
            assert(u@.skip(t0 as int) =~= Seq::<char>::empty());
        }
        return None;
    }
    if u[t0] != '{' {
        proof {
            assert(u@.skip(t0 as int)[0] == u@[t0 as int]);
        }
        return None;
    }
    proof {
        assert(u@.skip(t0 as int)[0] == u@[t0 as int]);
        assert(u@.skip(t0 as int).skip(1) =~= u@.skip(t0 as int + 1));
    }
    let t1 = skip_ws_at(&u, t0 + 1);
    if t1 < u.len() && u[t1] == '}' {
        proof {
            assert(u@.skip(t1 as int)[0] == u@[t1 as int]);
            assert(member_lookup(
                Seq::<(Seq<char>, Option<Seq<char>>)>::empty(),
                "sealed_session"@,
            ) is None);
        }
        return None;
    }
    proof {
        if t1 < u.len() {
            assert(u@.skip(t1 as int)[0] == u@[t1 as int]);
        } else {
            assert(u@.skip(t1 as int) =~= Seq::<char>::empty());
        }
        assert(parse_object(u@) == parse_members(u@.skip(t0 as int + 1), 5));
    }
    let mut slot_sealed: Option<Option<Vec<char>>> = None;
    let mut slot_uid: Option<Option<Vec<char>>> = None;
    let mut slot_email: Option<Option<Vec<char>>> = None;
    let mut slot_first: Option<Option<Vec<char>>> = None;
    let mut slot_last: Option<Option<Vec<char>>> = None;
    let mut cur: usize = t0 + 1;
    let mut fuel: usize = 5;
    let mut end_pos: usize = 0;
    let ghost mut ms: Seq<(Seq<char>, Option<Seq<char>>)> = Seq::empty();
    proof {
        let pm = parse_members(u@.skip(t0 as int + 1), 5);
        if pm is Some {
            let (a, b) = pm->Some_0;
            assert(ms + a =~= a);
        }
        assert(member_lookup(ms, "sealed_session"@) is None);
        assert(member_lookup(ms, "user_id"@) is None);
        assert(member_lookup(ms, "email"@) is None);
        assert(member_lookup(ms, "first_name"@) is None);
        assert(member_lookup(ms, "last_name"@) is None);
    }
    loop
        invariant_except_break
            cur <= u@.len(),
            fuel <= 5,
            u@ == s@,
            parse_object(u@) == parse_members(u@.skip(t0 as int + 1), 5),
            parse_members(u@.skip(t0 as int + 1), 5) == (match parse_members(
                u@.skip(cur as int),
                fuel as nat,
            ) {
                Some((ms2, rr)) => Some((ms + ms2, rr)),
                None => None,
            }),
            member_keys_ok(ms),
            slot_view(slot_sealed) == member_lookup(ms, "sealed_session"@),
            slot_view(slot_uid) == member_lookup(ms, "user_id"@),
            slot_view(slot_email) == member_lookup(ms, "email"@),
            slot_view(slot_first) == member_lookup(ms, "first_name"@),
            slot_view(slot_last) == member_lookup(ms, "last_name"@),
        ensures
            end_pos <= u@.len(),
            u@ == s@,
            parse_object(u@) == Some((ms, u@.skip(end_pos as int))),
            member_keys_ok(ms),
            slot_view(slot_sealed) == member_lookup(ms, "sealed_session"@),
            slot_view(slot_uid) == member_lookup(ms, "user_id"@),
            slot_view(slot_email) == member_lookup(ms, "email"@),
            slot_view(slot_first) == member_lookup(ms, "first_name"@),
            slot_view(slot_last) == member_lookup(ms, "last_name"@),
        decreases fuel,
    {
        if fuel == 0 {
            return None;
        }
        let (km, p) = match parse_member_at(&u, cur) {
            None => {
                return None;
            },
            Some(x) => x,
        };
        let (k, v) = km;
        let ghost m = (
            k@,
            match v {
                Some(ref vv) => Some(vv@),
                None => None,
            },
        );
        let p2 = skip_ws_at(&u, p);
        let is_comma = p2 < u.len() && u[p2] == ',';
        let is_close = p2 < u.len() && u[p2] == '}';
        proof {
            if p2 < u.len() {
                assert(u@.skip(p2 as int)[0] == u@[p2 as int]);
            } else {
                assert(u@.skip(p2 as int) =~= Seq::<char>::empty());
            }
        }
        if !is_comma && !is_close {
            return None;
        }
        proof {
            assert(u@.skip(p2 as int).skip(1) =~= u@.skip(p2 as int + 1));
        }
        // Store the member under its name; a duplicate or an unknown
        // name makes the whole object invalid.
        let known_slot: &mut Option<Option<Vec<char>>> = if chars_eq_str(&k, "sealed_session") {
            &mut slot_sealed
        } else if chars_eq_str(&k, "user_id") {
            &mut slot_uid
        } else if chars_eq_str(&k, "email") {
            &mut slot_email
        } else if chars_eq_str(&k, "first_name") {
            &mut slot_first
        } else if chars_eq_str(&k, "last_name") {
            &mut slot_last
        } else {
            proof {
                reveal_strlit("sealed_session");
                reveal_strlit("user_id");
                reveal_strlit("email");
                reveal_strlit("first_name");
                reveal_strlit("last_name");
                assert(!known_key(m.0));
                let pm = parse_members(u@.skip(cur as int), fuel as nat);
                if pm is Some {
                    let (ms2, rr) = pm->Some_0;
                    assert(ms2[0] == m);
                    assert((ms + ms2)[ms.len() as int].0 == m.0);
                    assert(!member_keys_ok(ms + ms2));
                }
            }
            return None;
        };
        if known_slot.is_some() {
            proof {
                assert(member_lookup(ms, m.0) is Some);
                lemma_member_lookup_index(ms, m.0);
                let i = choose|i: int| 0 <= i < ms.len() && ms[i].0 == m.0;
                let pm = parse_members(u@.skip(cur as int), fuel as nat);
                if pm is Some {
                    let (ms2, rr) = pm->Some_0;
                    assert(ms2[0] == m);
                    assert((ms + ms2)[i] == ms[i]);
                    assert((ms + ms2)[ms.len() as int].0 == m.0);
                    assert(!member_keys_ok(ms + ms2));
                }
            }
            return None;
        }
        *known_slot = Some(v);
        proof {
            reveal_strlit("sealed_session");
            reveal_strlit("user_id");
            reveal_strlit("email");
            reveal_strlit("first_name");
            reveal_strlit("last_name");
            assert("sealed_session"@.len() == 14 && "user_id"@.len() == 7 && "email"@.len() == 5
                && "first_name"@.len() == 10 && "last_name"@.len() == 9);
            let ms2 = ms.push(m);
            assert forall|i: int| 0 <= i < ms.len() implies ms[i].0 != m.0 by {
                if ms[i].0 == m.0 {
                    lemma_member_lookup_present(ms, i);
                }
            }
            assert forall|i: int| 0 <= i < ms2.len() implies known_key(#[trigger] ms2[i].0) by {
                if i < ms.len() {
                    assert(ms2[i] == ms[i]);
                } else {
                    assert(ms2[i] == m);
                }
            }
            assert forall|i: int, j: int| 0 <= i < j < ms2.len() implies #[trigger] ms2[i].0
                != #[trigger] ms2[j].0 by {
                if j < ms.len() {
                    assert(ms2[i] == ms[i] && ms2[j] == ms[j]);
                } else {
                    assert(ms2[i] == ms[i] && ms2[j] == m);
                }
            }
            lemma_member_lookup_push(ms, m, "sealed_session"@);
            lemma_member_lookup_push(ms, m, "user_id"@);
            lemma_member_lookup_push(ms, m, "email"@);
            lemma_member_lookup_push(ms, m, "first_name"@);
            lemma_member_lookup_push(ms, m, "last_name"@);
            // Step the member-list parse over this member.
            let rest_cur = u@.skip(cur as int);
            if is_comma {
                let pm_next = parse_members(u@.skip(p2 as int + 1), (fuel - 1) as nat);
                assert(parse_members(rest_cur, fuel as nat) == (match pm_next {
                    Some((msx, rr)) => Some((seq![m] + msx, rr)),
                    None => None,
                }));
                if pm_next is Some {
                    let (msx, rr) = pm_next->Some_0;
                    assert(ms + (seq![m] + msx) =~= ms2 + msx);
                }
            } else {
                assert(parse_members(rest_cur, fuel as nat) == Some(
                    (seq![m], u@.skip(p2 as int + 1)),
                ));
                assert(ms + seq![m] =~= ms2);
            }
            ms = ms2;
        }
        if is_comma {
            cur = p2 + 1;
            fuel = fuel - 1;
        } else {
            end_pos = p2 + 1;
            break;
        }
    }
    let e = skip_ws_at(&u, end_pos);
    if e < u.len() {
        proof {
            assert(u@.skip(e as int).len() > 0);
        }
        return None;
    }
    proof {
        assert(u@.skip(e as int) =~= Seq::<char>::empty());
    }
    let sealed_v: Vec<char> = match slot_sealed {
        Some(Some(v)) => v,
        _ => {
            return None;
        },
    };
    let uid_v: Vec<char> = match slot_uid {
        Some(Some(v)) => v,
        _ => {
            return None;
        },
    };
    let email_v: Vec<char> = match slot_email {
        Some(Some(v)) => v,
        _ => {
            return None;
        },
    };
    Some(
        UserSession {
            sealed_session: chars_to_string(&sealed_v),
            user_id: chars_to_string(&uid_v),
            email: chars_to_string(&email_v),
            first_name: match slot_first {
                Some(Some(v)) => Some(chars_to_string(&v)),
                _ => None,
            },
            last_name: match slot_last {
                Some(Some(v)) => Some(chars_to_string(&v)),
                _ => None,
            },
        },
    )
}

/// A name that lookup finds is present at some index.
proof fn lemma_member_lookup_index(ms: Seq<(Seq<char>, Option<Seq<char>>)>, k: Seq<char>)
    requires
        member_lookup(ms, k) is Some,
    ensures
        exists|i: int| 0 <= i < ms.len() && (#[trigger] ms[i]).0 == k,
    decreases ms.len(),
{
    if ms[0].0 == k {
        assert(0 <= 0 < ms.len() && ms[0].0 == k);
    } else {
        lemma_member_lookup_index(ms.drop_first(), k);
        let i = choose|i: int| 0 <= i < ms.drop_first().len() && (#[trigger] ms.drop_first()[i]).0
            == k;
        assert(ms[i + 1] == ms.drop_first()[i]);
        assert(0 <= i + 1 < ms.len() && ms[i + 1].0 == k);
    }
}

} // verus!
