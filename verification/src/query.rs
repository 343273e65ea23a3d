//! The query string of the callback URL: segments separated by `&`,
//! each split at its first `=` into a name and a percent-coded value.
//! When a name occurs more than once, the last occurrence wins.

use vstd::prelude::*;
use vstd::slice::{slice_subrange, slice_to_vec};
use crate::percent::{pct_decode, pct_decode_chars};
use crate::text::str_to_chars;

verus! {

/// The index of the first occurrence of `c` in `s`, or `s.len()` when
/// there is none.
pub open spec fn first_at(s: Seq<char>, c: char) -> int
    decreases s.len(),
{
    if s.len() == 0 {
        0
    } else if s[0] == c {
        0
    } else {
        1 + first_at(s.drop_first(), c)
    }
}

pub proof fn lemma_first_at(s: Seq<char>, c: char)
    ensures
        0 <= first_at(s, c) <= s.len(),
        first_at(s, c) < s.len() ==> s[first_at(s, c)] == c,
        forall|j: int| 0 <= j < first_at(s, c) ==> s[j] != c,
    decreases s.len(),
{
    if s.len() > 0 && s[0] != c {
        let t = s.drop_first();
        lemma_first_at(t, c);
        assert forall|j: int| 0 <= j < first_at(s, c) implies s[j] != c by {
            if j > 0 {
                assert(s[j] == t[j - 1]);
            }
        }
    }
}

/// `s` split on the separator `c`: the segments between occurrences of
/// `c`, in order. A string without the separator is one segment; each
/// further occurrence adds one.
pub open spec fn split_sep(s: Seq<char>, c: char) -> Seq<Seq<char>>
    decreases s.len(),
{
    if s.len() == 0 {
        seq![Seq::<char>::empty()]
    } else if s[0] == c {
        seq![Seq::<char>::empty()] + split_sep(s.drop_first(), c)
    } else {
        let r = split_sep(s.drop_first(), c);
        seq![seq![s[0]] + r[0]] + r.skip(1)
    }
}

pub proof fn lemma_split_sep_len(s: Seq<char>, c: char)
    ensures
        split_sep(s, c).len() >= 1,
    decreases s.len(),
{
    if s.len() > 0 {
        lemma_split_sep_len(s.drop_first(), c);
    }
}

/// Splitting steps over the first segment: up to the first separator is
/// one segment, and the rest splits on its own.
pub proof fn lemma_split_sep_step(s: Seq<char>, c: char)
    ensures
        first_at(s, c) == s.len() ==> split_sep(s, c) == seq![s],
        first_at(s, c) < s.len() ==> split_sep(s, c) == seq![s.take(first_at(s, c))] + split_sep(
            s.skip(first_at(s, c) + 1),
            c,
        ),
    decreases s.len(),
{
    lemma_first_at(s, c);
    if s.len() == 0 {
        assert(s =~= Seq::<char>::empty());
        assert(split_sep(s, c) == seq![s]);
    } else if s[0] == c {
        assert(s.take(0) =~= Seq::<char>::empty());
        assert(s.skip(1) =~= s.drop_first());
        assert(split_sep(s, c) =~= seq![s.take(0)] + split_sep(s.skip(1), c));
    } else {
        let t = s.drop_first();
        lemma_split_sep_step(t, c);
        lemma_split_sep_len(t, c);
        let i = first_at(s, c);
        assert(i == 1 + first_at(t, c));
        if first_at(t, c) == t.len() {
            assert(split_sep(t, c) == seq![t]);
            assert(seq![s[0]] + t =~= s);
            assert(split_sep(s, c) =~= seq![s]);
        } else {
            let j = first_at(t, c);
            assert(split_sep(t, c) == seq![t.take(j)] + split_sep(t.skip(j + 1), c));
            assert(seq![s[0]] + t.take(j) =~= s.take(i));
            assert(t.skip(j + 1) =~= s.skip(i + 1));
            assert((seq![t.take(j)] + split_sep(t.skip(j + 1), c)).skip(1) =~= split_sep(
                s.skip(i + 1),
                c,
            ));
            assert(split_sep(s, c) =~= seq![s.take(i)] + split_sep(s.skip(i + 1), c));
        }
    }
}

/// The name of a query segment: everything before its first `=`, or the
/// whole segment when it has none.
pub open spec fn seg_name(p: Seq<char>) -> Seq<char> {
    p.take(first_at(p, '='))
}

/// The raw (still percent-coded) value of a query segment: everything
/// after its first `=`, or empty when it has none.
pub open spec fn seg_raw_value(p: Seq<char>) -> Seq<char> {
    if first_at(p, '=') == p.len() {
        Seq::empty()
    } else {
        p.skip(first_at(p, '=') + 1)
    }
}

/// The decoded value of the last segment whose decoded name is `k`, or
/// nothing when no segment carries that name.
pub open spec fn lookup_last(segs: Seq<Seq<char>>, k: Seq<char>) -> Option<Seq<char>>
    decreases segs.len(),
{
    if segs.len() == 0 {
        None
    } else if pct_decode(seg_name(segs.last())) == k {
        Some(pct_decode(seg_raw_value(segs.last())))
    } else {
        lookup_last(segs.drop_last(), k)
    }
}

/// The value of the parameter named `k` in the query string `q`: the
/// decoded value of the last `&`-separated segment whose decoded name
/// is `k`.
pub open spec fn param_value(q: Seq<char>, k: Seq<char>) -> Option<Seq<char>> {
    lookup_last(split_sep(q, '&'), k)
}

/// The index of the first occurrence of `c` in `s` at or after `from`,
/// found by a scan; `s.len()` when there is none.
pub fn find_char(s: &Vec<char>, from: usize, c: char) -> (r: usize)
    requires
        from <= s@.len(),
    ensures
        from <= r <= s@.len(),
        r - from == first_at(s@.skip(from as int), c),
{
    let mut j: usize = from;
    while j < s.len()
        invariant
            from <= j <= s@.len(),
            first_at(s@.skip(from as int), c) == j - from + first_at(s@.skip(j as int), c),
            forall|m: int| from <= m < j ==> s@[m] != c,
        decreases s@.len() - j,
    {
        if s[j] == c {
            proof {
                assert(s@.skip(j as int)[0] == s@[j as int]);
            }
            return j;
        }
        proof {
            let t = s@.skip(j as int);
            assert(t[0] == s@[j as int]);
            assert(t.drop_first() =~= s@.skip(j as int + 1));
        }
        j = j + 1;
    }
    proof {
        assert(s@.skip(j as int) =~= Seq::<char>::empty());
    }
    j
}

/// Looks the parameter `key` up in the query string `q`, with the last
/// occurrence winning, and hands its decoded value back.
pub fn lookup_query_param(q: &Vec<char>, key: &str) -> (r: Option<Vec<char>>)
    ensures
        match r {
            Some(v) => param_value(q@, key@) == Some(v@),
            None => param_value(q@, key@) is None,
        },
{
    let key_chars = str_to_chars(key);
    let mut best: Option<Vec<char>> = None;
    let mut i: usize = 0;
    let ghost mut done: Seq<Seq<char>> = Seq::empty();
    proof {
        assert(q@.skip(0) =~= q@);
        assert(done + split_sep(q@, '&') =~= split_sep(q@, '&'));
    }
    loop
        invariant_except_break
            i <= q@.len(),
            key_chars@ == key@,
            split_sep(q@, '&') == done + split_sep(q@.skip(i as int), '&'),
            match best {
                Some(v) => lookup_last(done, key@) == Some(v@),
                None => lookup_last(done, key@) is None,
            },
        ensures
            match best {
                Some(v) => param_value(q@, key@) == Some(v@),
                None => param_value(q@, key@) is None,
            },
        decreases q@.len() - i,
    {
        let j = find_char(q, i, '&');
        let seg: Vec<char> = slice_to_vec(slice_subrange(q.as_slice(), i, j));
        let ghost segview = q@.skip(i as int).take(j - i);
        proof {
            assert(seg@ =~= segview);
        }
        let e = find_char(&seg, 0, '=');
        proof {
            assert(seg@.skip(0) =~= seg@);
        }
        let name_raw: Vec<char> = slice_to_vec(slice_subrange(seg.as_slice(), 0, e));
        proof {
            assert(name_raw@ =~= seg_name(segview));
        }
        let value_raw: Vec<char> = if e < seg.len() {
            slice_to_vec(slice_subrange(seg.as_slice(), e + 1, seg.len()))
        } else {
            Vec::new()
        };
        proof {
            lemma_first_at(segview, '=');
            assert(value_raw@ =~= seg_raw_value(segview));
        }
        let name = pct_decode_chars(&name_raw);
        let matched = chars_eq(&name, &key_chars);
        if matched {
            best = Some(pct_decode_chars(&value_raw));
        }
        proof {
            let rest = q@.skip(i as int);
            lemma_split_sep_step(rest, '&');
            assert(first_at(rest, '&') == j - i);
            let done2 = done + seq![segview];
            assert(done2.last() == segview && done2.drop_last() =~= done);
            assert(lookup_last(done2, key@) == if pct_decode(seg_name(segview)) == key@ {
                Some(pct_decode(seg_raw_value(segview)))
            } else {
                lookup_last(done, key@)
            });
            if j < q.len() {
                assert(rest.skip(j - i + 1) =~= q@.skip(j + 1));
                assert(split_sep(rest, '&') == seq![segview] + split_sep(q@.skip(j + 1), '&'));
                assert(done + split_sep(rest, '&') =~= done2 + split_sep(q@.skip(j + 1), '&'));
            } else {
                assert(rest.take(j - i) =~= rest);
                assert(split_sep(rest, '&') == seq![segview]);
                assert(done + split_sep(rest, '&') =~= done2 + Seq::<Seq<char>>::empty());
                assert(split_sep(q@, '&') =~= done2);
            }
            done = done2;
        }
        if j < q.len() {
            i = j + 1;
        } else {
            break;
        }
    }
    best
}

/// Whether two character vectors hold the same characters.
pub fn chars_eq(a: &Vec<char>, b: &Vec<char>) -> (r: bool)
    ensures
        r == (a@ == b@),
{
    if a.len() != b.len() {
        proof {
            assert(a@ != b@);
        }
        return false;
    }
    for i in 0..a.len()
        invariant
            a@.len() == b@.len(),
            forall|m: int| 0 <= m < i ==> a@[m] == b@[m],
    {
        if a[i] != b[i] {
            return false;
        }
    }
    proof {
        assert(a@ =~= b@);
    }
    true
}

} // verus!
