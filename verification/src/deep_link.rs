//! The deep-link callback: a URL of the shape
//! `addie://auth/callback?sealed_session=..&user_id=..&email=..` with
//! optional `first_name` and `last_name` parameters. Any other URL is
//! ignored; a callback URL missing a required parameter is an error.

use vstd::prelude::*;
use vstd::slice::{slice_subrange, slice_to_vec};
use crate::percent::{
    all_ascii, pct_decode, pct_encode, lemma_pct_decode_plain, lemma_pct_encode_no_separator,
    lemma_pct_round_trip,
};
use crate::query::{
    find_char, first_at, lemma_first_at, lemma_split_sep_step, lookup_last, lookup_query_param,
    param_value, seg_name, seg_raw_value, split_sep,
};
use crate::text::{chars_to_string, str_to_chars};
use crate::{SessionView, UserSession};

verus! {

/// The URL prefix every auth callback starts with: the `addie` scheme,
/// the `auth` host and the `/callback` path.
pub open spec fn callback_prefix() -> Seq<char> {
    "addie://auth/callback"@
}

/// Whether `u` is an auth-callback URL: it starts with the callback
/// prefix, followed by nothing, a query, or a fragment.
pub open spec fn is_callback_url(u: Seq<char>) -> bool {
    let p = callback_prefix();
    &&& u.len() >= p.len()
    &&& u.take(p.len() as int) == p
    &&& (u.len() == p.len() || u[p.len() as int] == '?' || u[p.len() as int] == '#')
}

/// The query string of a callback URL: what stands between its `?` and
/// the end or the first `#`; empty when there is no query.
pub open spec fn query_of(u: Seq<char>) -> Seq<char> {
    let p = callback_prefix();
    if u.len() > p.len() && u[p.len() as int] == '?' {
        let rest = u.skip(p.len() as int + 1);
        rest.take(first_at(rest, '#'))
    } else {
        Seq::empty()
    }
}

/// The three query parameters a callback must carry.
#[derive(Debug, Clone, PartialEq)]
pub enum RequiredField {
    SealedSession,
    UserId,
    Email,
}

impl RequiredField {
    /// The error text reported when this field is missing.
    pub open spec fn message_view(&self) -> Seq<char> {
        match self {
            RequiredField::SealedSession => "Missing sealed_session"@,
            RequiredField::UserId => "Missing user_id"@,
            RequiredField::Email => "Missing email"@,
        }
    }

    /// The error text, as the caller surfaces it.
    pub fn message(&self) -> (r: String)
        ensures
            r@ == self.message_view(),
    {
        match self {
            RequiredField::SealedSession => "Missing sealed_session".to_owned(),
            RequiredField::UserId => "Missing user_id".to_owned(),
            RequiredField::Email => "Missing email".to_owned(),
        }
    }
}

/// What handling a deep link amounts to: a URL that is no auth callback
/// is ignored, a callback without a required parameter is an error, and
/// a complete callback carries a session.
#[derive(Debug, Clone, PartialEq)]
pub enum DeepLinkOutcome {
    Ignored,
    Missing(RequiredField),
    Parsed(UserSession),
}

/// Parses a deep-link URL. A URL that does not begin with
/// `addie://auth/callback` is ignored; one that does but lacks
/// `sealed_session`, `user_id` or `email` names the first missing
/// field; a complete one yields the session record with exactly the
/// decoded parameter values, the optional names absent when their
/// parameters are.
pub fn parse_deep_link(url: &str) -> (r: DeepLinkOutcome)
    ensures
        !is_callback_url(url@) ==> r == DeepLinkOutcome::Ignored,
        is_callback_url(url@) ==> ({
            let q = query_of(url@);
            if param_value(q, "sealed_session"@) is None {
                r == DeepLinkOutcome::Missing(RequiredField::SealedSession)
            } else if param_value(q, "user_id"@) is None {
                r == DeepLinkOutcome::Missing(RequiredField::UserId)
            } else if param_value(q, "email"@) is None {
                r == DeepLinkOutcome::Missing(RequiredField::Email)
            } else {
                &&& r matches DeepLinkOutcome::Parsed(s)
                &&& Some(s@.sealed_session) == param_value(q, "sealed_session"@)
                &&& Some(s@.user_id) == param_value(q, "user_id"@)
                &&& Some(s@.email) == param_value(q, "email"@)
                &&& s@.first_name == param_value(q, "first_name"@)
                &&& s@.last_name == param_value(q, "last_name"@)
            }
        }),
{
    let prefix = "addie://auth/callback";
    let u = str_to_chars(url);
    let plen = prefix.unicode_len();
    if u.len() < plen {
        return DeepLinkOutcome::Ignored;
    }
    for i in 0..plen
        invariant
            plen == callback_prefix().len(),
            u@ == url@,
            u@.len() >= plen,
            prefix@ == callback_prefix(),
            forall|m: int| 0 <= m < i ==> u@[m] == prefix@[m],
    {
        if u[i] != prefix.get_char(i) {
            proof {
                assert(u@.take(plen as int)[i as int] == u@[i as int]);
            }
            return DeepLinkOutcome::Ignored;
        }
    }
    proof {
        assert(u@.take(plen as int) =~= callback_prefix());
    }
    if u.len() > plen && u[plen] != '?' && u[plen] != '#' {
        return DeepLinkOutcome::Ignored;
    }
    let qv: Vec<char> = if u.len() > plen && u[plen] == '?' {
        let h = find_char(&u, plen + 1, '#');
        slice_to_vec(slice_subrange(u.as_slice(), plen + 1, h))
    } else {
        Vec::new()
    };
    proof {
        assert(qv@ =~= query_of(url@));
    }
    let sealed_session = match lookup_query_param(&qv, "sealed_session") {
        None => {
            return DeepLinkOutcome::Missing(RequiredField::SealedSession);
        },
        Some(v) => v,
    };
    let user_id = match lookup_query_param(&qv, "user_id") {
        None => {
            return DeepLinkOutcome::Missing(RequiredField::UserId);
        },
        Some(v) => v,
    };
    let email = match lookup_query_param(&qv, "email") {
        None => {
            return DeepLinkOutcome::Missing(RequiredField::Email);
        },
        Some(v) => v,
    };
    let first_name = lookup_query_param(&qv, "first_name");
    let last_name = lookup_query_param(&qv, "last_name");
    DeepLinkOutcome::Parsed(
        UserSession {
            sealed_session: chars_to_string(&sealed_session),
            user_id: chars_to_string(&user_id),
            email: chars_to_string(&email),
            first_name: match first_name {
                Some(v) => Some(chars_to_string(&v)),
                None => None,
            },
            last_name: match last_name {
                Some(v) => Some(chars_to_string(&v)),
                None => None,
            },
        },
    )
}

/// A query-parameter name that carries no separator and no escape
/// character, so it passes through splitting and decoding unchanged.
pub open spec fn plain_key(k: Seq<char>) -> bool {
    forall|i: int|
        0 <= i < k.len() ==> k[i] != '&' && k[i] != '=' && k[i] != '#' && k[i] != '%' && k[i]
            != '+'
}

/// One query segment: a name, `=`, and the percent-encoded value.
pub open spec fn field_seg(key: Seq<char>, value: Seq<char>) -> Seq<char> {
    key + seq!['='] + pct_encode(value)
}

/// The query string a complete callback carries: the three required
/// fields, then each optional name that is present.
pub open spec fn callback_query_of(v: SessionView) -> Seq<char> {
    field_seg("sealed_session"@, v.sealed_session) + seq!['&'] + field_seg("user_id"@, v.user_id)
        + seq!['&'] + field_seg("email"@, v.email) + (match v.first_name {
        Some(f) => seq!['&'] + field_seg("first_name"@, f),
        None => Seq::empty(),
    }) + (match v.last_name {
        Some(l) => seq!['&'] + field_seg("last_name"@, l),
        None => Seq::empty(),
    })
}

/// The callback URL that carries the record `v`.
pub open spec fn callback_url_of(v: SessionView) -> Seq<char> {
    callback_prefix() + seq!['?'] + callback_query_of(v)
}

/// The five parameter names are plain keys, and no two are the same.
proof fn lemma_keys()
    ensures
        plain_key("sealed_session"@),
        plain_key("user_id"@),
        plain_key("email"@),
        plain_key("first_name"@),
        plain_key("last_name"@),
        all_ascii("sealed_session"@),
        all_ascii("user_id"@),
        all_ascii("email"@),
        all_ascii("first_name"@),
        all_ascii("last_name"@),
        "sealed_session"@.len() == 14,
        "user_id"@.len() == 7,
        "email"@.len() == 5,
        "first_name"@.len() == 10,
        "last_name"@.len() == 9,
{
    reveal_strlit("sealed_session");
    reveal_strlit("user_id");
    reveal_strlit("email");
    reveal_strlit("first_name");
    reveal_strlit("last_name");
    assert("sealed_session"@ =~= seq![
        's', 'e', 'a', 'l', 'e', 'd', '_', 's', 'e', 's', 's', 'i', 'o', 'n',
    ]);
    assert("user_id"@ =~= seq!['u', 's', 'e', 'r', '_', 'i', 'd']);
    assert("email"@ =~= seq!['e', 'm', 'a', 'i', 'l']);
    assert("first_name"@ =~= seq!['f', 'i', 'r', 's', 't', '_', 'n', 'a', 'm', 'e']);
    assert("last_name"@ =~= seq!['l', 'a', 's', 't', '_', 'n', 'a', 'm', 'e']);
}

/// What one rendered segment splits and decodes into: its name and its
/// value, with no separator anywhere in it.
proof fn lemma_field_segment(key: Seq<char>, value: Seq<char>)
    requires
        plain_key(key),
        all_ascii(key),
        all_ascii(value),
    ensures
        pct_decode(seg_name(field_seg(key, value))) == key,
        pct_decode(seg_raw_value(field_seg(key, value))) == value,
        forall|i: int|
            0 <= i < field_seg(key, value).len() ==> field_seg(key, value)[i] != '&' && field_seg(
                key,
                value,
            )[i] != '#',
{
    let e = pct_encode(value);
    let seg = field_seg(key, value);
    lemma_pct_encode_no_separator(value);
    assert(seg[key.len() as int] == '=');
    assert(forall|j: int| 0 <= j < key.len() ==> seg[j] == key[j]);
    lemma_first_at(seg, '=');
    let fa = first_at(seg, '=');
    if fa < key.len() {
        assert(seg[fa] == '=');
        assert(false);
    }
    if fa > key.len() {
        assert(seg[key.len() as int] != '=');
        assert(false);
    }
    assert(seg.take(key.len() as int) =~= key);
    lemma_pct_decode_plain(key);
    assert(seg.skip(key.len() as int + 1) =~= e);
    lemma_pct_round_trip(value);
}

/// Splitting steps over a rendered segment and its separator.
proof fn lemma_query_head(seg: Seq<char>, rest: Seq<char>)
    requires
        forall|i: int| 0 <= i < seg.len() ==> seg[i] != '&',
    ensures
        split_sep(seg + seq!['&'] + rest, '&') == seq![seg] + split_sep(rest, '&'),
{
    let q = seg + seq!['&'] + rest;
    assert(q[seg.len() as int] == '&');
    assert(forall|j: int| 0 <= j < seg.len() ==> q[j] == seg[j]);
    lemma_first_at(q, '&');
    let fa = first_at(q, '&');
    if fa < seg.len() {
        assert(q[fa] == '&');
        assert(false);
    }
    if fa > seg.len() {
        assert(q[seg.len() as int] != '&');
        assert(false);
    }
    lemma_split_sep_step(q, '&');
    assert(q.take(seg.len() as int) =~= seg);
    assert(q.skip(seg.len() as int + 1) =~= rest);
}

/// A lone segment splits into itself.
proof fn lemma_query_single(seg: Seq<char>)
    requires
        forall|i: int| 0 <= i < seg.len() ==> seg[i] != '&',
    ensures
        split_sep(seg, '&') == seq![seg],
{
    lemma_first_at(seg, '&');
    let fa = first_at(seg, '&');
    if fa < seg.len() {
        assert(seg[fa] == '&');
        assert(false);
    }
    lemma_split_sep_step(seg, '&');
}

/// Looking a name up in one more segment: the new segment answers when
/// its name matches, and the earlier ones answer otherwise.
proof fn lemma_lookup_snoc(a: Seq<Seq<char>>, s: Seq<char>)
    ensures
        forall|k: Seq<char>|
            #[trigger] lookup_last(a.push(s), k) == if pct_decode(seg_name(s)) == k {
                Some(pct_decode(seg_raw_value(s)))
            } else {
                lookup_last(a, k)
            },
{
    assert forall|k: Seq<char>|
        #[trigger] lookup_last(a.push(s), k) == if pct_decode(seg_name(s)) == k {
            Some(pct_decode(seg_raw_value(s)))
        } else {
            lookup_last(a, k)
        } by {
        assert(a.push(s).last() == s);
        assert(a.push(s).drop_last() =~= a);
    }
}

/// No name is found among no segments.
proof fn lemma_lookup_empty()
    ensures
        forall|k: Seq<char>| #[trigger] lookup_last(Seq::<Seq<char>>::empty(), k) is None,
{
    assert forall|k: Seq<char>| #[trigger] lookup_last(Seq::<Seq<char>>::empty(), k) is None by {
        assert(lookup_last(Seq::<Seq<char>>::empty(), k) is None);
    }
}

/// The callback URL rendered from a record `v` of ASCII fields reads
/// back as exactly `v`: it is a callback, and each parameter decodes to
/// the field it was rendered from, the absent optional names staying
/// absent.
#[verifier::rlimit(60)]
pub proof fn lemma_callback_round_trip(v: SessionView)
    requires
        all_ascii(v.sealed_session),
        all_ascii(v.user_id),
        all_ascii(v.email),
        v.first_name matches Some(f) ==> all_ascii(f),
        v.last_name matches Some(l) ==> all_ascii(l),
    ensures
        is_callback_url(callback_url_of(v)),
        param_value(query_of(callback_url_of(v)), "sealed_session"@) == Some(v.sealed_session),
        param_value(query_of(callback_url_of(v)), "user_id"@) == Some(v.user_id),
        param_value(query_of(callback_url_of(v)), "email"@) == Some(v.email),
        param_value(query_of(callback_url_of(v)), "first_name"@) == v.first_name,
        param_value(query_of(callback_url_of(v)), "last_name"@) == v.last_name,
{
    lemma_keys();
    let p = callback_prefix();
    let q = callback_query_of(v);
    let url = callback_url_of(v);
    let s1 = field_seg("sealed_session"@, v.sealed_session);
    let s2 = field_seg("user_id"@, v.user_id);
    let s3 = field_seg("email"@, v.email);
    lemma_field_segment("sealed_session"@, v.sealed_session);
    lemma_field_segment("user_id"@, v.user_id);
    lemma_field_segment("email"@, v.email);
    if let Some(f) = v.first_name {
        lemma_field_segment("first_name"@, f);
    }
    if let Some(l) = v.last_name {
        lemma_field_segment("last_name"@, l);
    }
    // The rendered URL is a callback, and its query is `q`.
    assert(url.take(p.len() as int) =~= p);
    assert(url[p.len() as int] == '?');
    assert(url.skip(p.len() as int + 1) =~= q);
    assert(forall|i: int| 0 <= i < q.len() ==> q[i] != '#');
    lemma_first_at(q, '#');
    if first_at(q, '#') < q.len() {
        assert(q[first_at(q, '#')] == '#');
        assert(false);
    }
    assert(q.take(q.len() as int) =~= q);
    assert(query_of(url) == q);
    // The query splits into one segment per rendered field.
    lemma_lookup_empty();
    match (v.first_name, v.last_name) {
        (None, None) => {
            assert(q =~= s1 + seq!['&'] + (s2 + seq!['&'] + s3));
            lemma_query_head(s1, s2 + seq!['&'] + s3);
            lemma_query_head(s2, s3);
            lemma_query_single(s3);
            assert(split_sep(q, '&') =~= seq![s1, s2, s3]);
            lemma_lookup_snoc(seq![s1, s2], s3);
            lemma_lookup_snoc(seq![s1], s2);
            lemma_lookup_snoc(Seq::<Seq<char>>::empty(), s1);
            assert(seq![s1].push(s2) =~= seq![s1, s2]);
            assert(seq![s1, s2].push(s3) =~= seq![s1, s2, s3]);
            assert(Seq::<Seq<char>>::empty().push(s1) =~= seq![s1]);
        },
        (Some(f), None) => {
            let s4 = field_seg("first_name"@, f);
            assert(q =~= s1 + seq!['&'] + (s2 + seq!['&'] + (s3 + seq!['&'] + s4)));
            lemma_query_head(s1, s2 + seq!['&'] + (s3 + seq!['&'] + s4));
            lemma_query_head(s2, s3 + seq!['&'] + s4);
            lemma_query_head(s3, s4);
            lemma_query_single(s4);
            assert(split_sep(q, '&') =~= seq![s1, s2, s3, s4]);
            lemma_lookup_snoc(seq![s1, s2, s3], s4);
            lemma_lookup_snoc(seq![s1, s2], s3);
            lemma_lookup_snoc(seq![s1], s2);
            lemma_lookup_snoc(Seq::<Seq<char>>::empty(), s1);
            assert(seq![s1].push(s2) =~= seq![s1, s2]);
            assert(seq![s1, s2].push(s3) =~= seq![s1, s2, s3]);
            assert(seq![s1, s2, s3].push(s4) =~= seq![s1, s2, s3, s4]);
            assert(Seq::<Seq<char>>::empty().push(s1) =~= seq![s1]);
        },
        (None, Some(l)) => {
            let s5 = field_seg("last_name"@, l);
            assert(q =~= s1 + seq!['&'] + (s2 + seq!['&'] + (s3 + seq!['&'] + s5)));
            lemma_query_head(s1, s2 + seq!['&'] + (s3 + seq!['&'] + s5));
            lemma_query_head(s2, s3 + seq!['&'] + s5);
            lemma_query_head(s3, s5);
            lemma_query_single(s5);
            assert(split_sep(q, '&') =~= seq![s1, s2, s3, s5]);
            lemma_lookup_snoc(seq![s1, s2, s3], s5);
            lemma_lookup_snoc(seq![s1, s2], s3);
            lemma_lookup_snoc(seq![s1], s2);
            lemma_lookup_snoc(Seq::<Seq<char>>::empty(), s1);
            assert(seq![s1].push(s2) =~= seq![s1, s2]);
            assert(seq![s1, s2].push(s3) =~= seq![s1, s2, s3]);
            assert(seq![s1, s2, s3].push(s5) =~= seq![s1, s2, s3, s5]);
            assert(Seq::<Seq<char>>::empty().push(s1) =~= seq![s1]);
        },
        (Some(f), Some(l)) => {
            let s4 = field_seg("first_name"@, f);
            let s5 = field_seg("last_name"@, l);
            assert(q =~= s1 + seq!['&'] + (s2 + seq!['&'] + (s3 + seq!['&'] + (s4 + seq!['&']
                + s5))));
            lemma_query_head(s1, s2 + seq!['&'] + (s3 + seq!['&'] + (s4 + seq!['&'] + s5)));
            lemma_query_head(s2, s3 + seq!['&'] + (s4 + seq!['&'] + s5));
            lemma_query_head(s3, s4 + seq!['&'] + s5);
            lemma_query_head(s4, s5);
            lemma_query_single(s5);
            assert(split_sep(q, '&') =~= seq![s1, s2, s3, s4, s5]);
            lemma_lookup_snoc(seq![s1, s2, s3, s4], s5);
            lemma_lookup_snoc(seq![s1, s2, s3], s4);
            lemma_lookup_snoc(seq![s1, s2], s3);
            lemma_lookup_snoc(seq![s1], s2);
            lemma_lookup_snoc(Seq::<Seq<char>>::empty(), s1);
            assert(seq![s1].push(s2) =~= seq![s1, s2]);
            assert(seq![s1, s2].push(s3) =~= seq![s1, s2, s3]);
            assert(seq![s1, s2, s3].push(s4) =~= seq![s1, s2, s3, s4]);
            assert(seq![s1, s2, s3, s4].push(s5) =~= seq![s1, s2, s3, s4, s5]);
            assert(Seq::<Seq<char>>::empty().push(s1) =~= seq![s1]);
        },
    }
}

} // verus!
