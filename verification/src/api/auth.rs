//! The decision of the optional API-key authentication middleware.
//!
//! When an API key is configured, every `/api/*` request must present the key
//! either in the `X-API-Key` header or as `Authorization: Bearer <key>`.
//! With an empty key the middleware is a no-op.

use vstd::prelude::*;

verus! {

/// Unicode `White_Space`, the characters that `str::trim` removes.
pub open spec fn is_white_space(c: char) -> bool {
    ||| '\u{9}' <= c <= '\u{d}'
    ||| c == ' '
    ||| c == '\u{85}'
    ||| c == '\u{a0}'
    ||| c == '\u{1680}'
    ||| '\u{2000}' <= c <= '\u{200a}'
    ||| c == '\u{2028}'
    ||| c == '\u{2029}'
    ||| c == '\u{202f}'
    ||| c == '\u{205f}'
    ||| c == '\u{3000}'
}

/// `s` without its leading white space.
pub open spec fn trim_start(s: Seq<char>) -> Seq<char>
    decreases s.len(),
{
    if s.len() > 0 && is_white_space(s[0]) {
        trim_start(s.drop_first())
    } else {
        s
    }
}

/// `s` without its trailing white space.
pub open spec fn trim_end(s: Seq<char>) -> Seq<char>
    decreases s.len(),
{
    if s.len() > 0 && is_white_space(s.last()) {
        trim_end(s.drop_last())
    } else {
        s
    }
}

/// `s` without leading and trailing white space, as `str::trim` gives it.
pub open spec fn trimmed(s: Seq<char>) -> Seq<char> {
    trim_end(trim_start(s))
}

/// The scheme prefix of a bearer credential, `"Bearer "`.
pub open spec fn bearer_prefix() -> Seq<char> {
    seq!['B', 'e', 'a', 'r', 'e', 'r', ' ']
}

/// The view of an optional header value.
pub open spec fn header_view(h: Option<&str>) -> Option<Seq<char>> {
    match h {
        Some(s) => Some(s@),
        None => None,
    }
}

/// The key a request presents: the `X-API-Key` header when there is one;
/// otherwise the trimmed rest of an `Authorization` header that starts with
/// `"Bearer "`; otherwise none.
pub open spec fn presented_key(x_api_key: Option<Seq<char>>, authorization: Option<Seq<char>>) -> Option<Seq<char>> {
    match x_api_key {
        Some(k) => Some(k),
        None => match authorization {
            Some(a) => if a.len() >= 7 && a.take(7) == bearer_prefix() {
                Some(trimmed(a.skip(7)))
            } else {
                None
            },
            None => None,
        },
    }
}

/// Whether a request passes: no key is configured, or it presents exactly the
/// configured key.
pub open spec fn request_allowed(expected: Seq<char>, x_api_key: Option<Seq<char>>, authorization: Option<Seq<char>>) -> bool {
    expected.len() == 0 || presented_key(x_api_key, authorization) == Some(expected)
}

/// With no key configured every request passes, whatever it presents.
pub proof fn law_empty_key_allows_every_request(x_api_key: Option<Seq<char>>, authorization: Option<Seq<char>>)
    ensures
        request_allowed(Seq::empty(), x_api_key, authorization),
{
}

/// An `X-API-Key` header decides alone: the `Authorization` header is not
/// looked at when it is present.
pub proof fn law_x_api_key_takes_precedence(expected: Seq<char>, key: Seq<char>, authorization: Option<Seq<char>>)
    ensures
        request_allowed(expected, Some(key), authorization) == (expected.len() == 0 || key == expected),
{
}

/// A request that presents the configured key passes, in the `X-API-Key`
/// header or, when the key neither starts nor ends with white space, as a
/// bearer token with any white space around it.
pub proof fn law_presented_key_passes(expected: Seq<char>, pad_before: Seq<char>, pad_after: Seq<char>, authorization: Option<Seq<char>>)
    requires
        expected.len() > 0 ==> !is_white_space(expected[0]) && !is_white_space(expected.last()),
        forall|i: int| 0 <= i < pad_before.len() ==> is_white_space(#[trigger] pad_before[i]),
        forall|i: int| 0 <= i < pad_after.len() ==> is_white_space(#[trigger] pad_after[i]),
    ensures
        request_allowed(expected, Some(expected), authorization),
        request_allowed(expected, None, Some(bearer_prefix() + pad_before + expected + pad_after)),
{
    if expected.len() > 0 {
        let a = bearer_prefix() + pad_before + expected + pad_after;
        let rest = expected + pad_after;
        assert(a.take(7) =~= bearer_prefix());
        assert(a.skip(7) =~= pad_before + rest);
        lemma_trim_start_padding(pad_before, rest);
        assert(rest[0] == expected[0]);
        assert(trim_start(rest) == rest);
        lemma_trim_end_padding(expected, pad_after);
    }
}

/// Leading white space is trimmed away.
proof fn lemma_trim_start_padding(pad: Seq<char>, rest: Seq<char>)
    requires
        forall|i: int| 0 <= i < pad.len() ==> is_white_space(#[trigger] pad[i]),
    ensures
        trim_start(pad + rest) == trim_start(rest),
    decreases pad.len(),
{
    if pad.len() > 0 {
        assert((pad + rest).drop_first() =~= pad.drop_first() + rest);
        assert((pad + rest)[0] == pad[0]);
        assert forall|i: int| 0 <= i < pad.drop_first().len() implies is_white_space(#[trigger] pad.drop_first()[i]) by {
            assert(pad.drop_first()[i] == pad[i + 1]);
        }
        lemma_trim_start_padding(pad.drop_first(), rest);
    } else {
        assert(pad + rest =~= rest);
    }
}

/// Trailing white space after text that does not end in white space is
/// trimmed away, leaving that text.
proof fn lemma_trim_end_padding(core: Seq<char>, pad: Seq<char>)
    requires
        forall|i: int| 0 <= i < pad.len() ==> is_white_space(#[trigger] pad[i]),
        core.len() > 0,
        !is_white_space(core.last()),
    ensures
        trim_end(core + pad) == core,
    decreases pad.len(),
{
    if pad.len() > 0 {
        assert((core + pad).drop_last() =~= core + pad.drop_last());
        assert((core + pad).last() == pad.last());
        assert(is_white_space(pad[pad.len() - 1]));
        assert forall|i: int| 0 <= i < pad.drop_last().len() implies is_white_space(#[trigger] pad.drop_last()[i]) by {
            assert(pad.drop_last()[i] == pad[i]);
        }
        lemma_trim_end_padding(core, pad.drop_last());
    } else {
        assert(core + pad =~= core);
        assert(core.len() > 0);
    }
}

/// The characters of a string slice.
fn chars_of(s: &str) -> (v: Vec<char>)
    ensures
        v@ == s@,
{
    broadcast use vstd::string::axiom_spec_iter;
    let mut v: Vec<char> = Vec::new();
    for c in it: s.chars()
        invariant
            it.seq() == s@,
            v@ == s@.take(it.index() as int),
    {
        v.push(c);
        assert(v@ =~= s@.take(it.index() + 1));
    }
    assert(v@ =~= s@);
    v
}


/// Whether `c` is Unicode white space.
fn is_white_space_char(c: char) -> (b: bool)
    ensures
        b == is_white_space(c),
{
    ('\u{9}' <= c && c <= '\u{d}') || c == ' ' || c == '\u{85}' || c == '\u{a0}' || c == '\u{1680}'
        || ('\u{2000}' <= c && c <= '\u{200a}') || c == '\u{2028}' || c == '\u{2029}'
        || c == '\u{202f}' || c == '\u{205f}' || c == '\u{3000}'
}

/// The bounds of `v[from..]` with its leading and trailing white space left
/// out.
fn trim_bounds(v: &Vec<char>, from: usize) -> (r: (usize, usize))
    requires
        from <= v.len(),
    ensures
        from <= r.0 <= r.1 <= v.len(),
        v@.subrange(r.0 as int, r.1 as int) == trimmed(v@.skip(from as int)),
{
    let mut lo = from;
    while lo < v.len() && is_white_space_char(v[lo])
        invariant
            from <= lo <= v.len(),
            trim_start(v@.skip(from as int)) == trim_start(v@.skip(lo as int)),
        decreases v.len() - lo,
    {
        assert(v@.skip(lo as int).drop_first() =~= v@.skip(lo + 1));
        lo += 1;
    }
    assert(trim_start(v@.skip(lo as int)) == v@.skip(lo as int));
    let mut hi = v.len();
    assert(v@.skip(lo as int) =~= v@.subrange(lo as int, hi as int));
    while hi > lo && is_white_space_char(v[hi - 1])
        invariant
            lo <= hi <= v.len(),
            trimmed(v@.skip(from as int)) == trim_end(v@.subrange(lo as int, hi as int)),
        decreases hi,
    {
        assert(v@.subrange(lo as int, hi as int).drop_last() =~= v@.subrange(lo as int, hi - 1));
        hi -= 1;
    }
    (lo, hi)
}

/// Whether `v[lo..hi]` spells exactly `w`.
fn chars_equal(v: &Vec<char>, lo: usize, hi: usize, w: &Vec<char>) -> (b: bool)
    requires
        lo <= hi <= v.len(),
    ensures
        b == (v@.subrange(lo as int, hi as int) == w@),
{
    if hi - lo != w.len() {
        return false;
    }
    let mut i: usize = 0;
    while i < w.len()
        invariant
            i <= w.len(),
            hi - lo == w.len(),
            lo <= hi <= v.len(),
            forall|k: int| 0 <= k < i ==> v@[lo + k] == w@[k],
        decreases w.len() - i,
    {
        if v[lo + i] != w[i] {
            assert(v@.subrange(lo as int, hi as int)[i as int] != w@[i as int]);
            return false;
        }
        i += 1;
    }
    assert(v@.subrange(lo as int, hi as int) =~= w@);
    true
}

/// Whether `v` starts with `"Bearer "`.
fn starts_with_bearer(v: &Vec<char>) -> (b: bool)
    ensures
        b == (v@.len() >= 7 && v@.take(7) == bearer_prefix()),
{
    if v.len() < 7 {
        return false;
    }
    let b = v[0] == 'B' && v[1] == 'e' && v[2] == 'a' && v[3] == 'r' && v[4] == 'e' && v[5] == 'r' && v[6] == ' ';
    if b {
        assert(v@.take(7) =~= bearer_prefix());
    } else {
        assert(v@.take(7) != bearer_prefix()) by {
            if v@.take(7) == bearer_prefix() {
                assert(v@.take(7)[0] == 'B' && v@.take(7)[1] == 'e' && v@.take(7)[2] == 'a');
                assert(v@.take(7)[3] == 'r' && v@.take(7)[4] == 'e' && v@.take(7)[5] == 'r');
                assert(v@.take(7)[6] == ' ');
            }
        }
    }
    b
}

/// Decides whether a request may pass, given the configured key and the
/// request's `X-API-Key` and `Authorization` headers (each present only when
/// it is a valid string). With an empty configured key every request passes.
pub fn api_key_allowed(expected: &str, x_api_key: Option<&str>, authorization: Option<&str>) -> (ok: bool)
    ensures
        ok == request_allowed(expected@, header_view(x_api_key), header_view(authorization)),
{
    if expected.is_empty() {
        return true;
    }
    let want = chars_of(expected);
    match x_api_key {
        Some(k) => {
            let got = chars_of(k);
            assert(got@.subrange(0, got@.len() as int) =~= got@);
            chars_equal(&got, 0, got.len(), &want)
        },
        None => match authorization {
            Some(a) => {
                let got = chars_of(a);
                if starts_with_bearer(&got) {
                    let (lo, hi) = trim_bounds(&got, 7);
                    chars_equal(&got, lo, hi, &want)
                } else {
                    false
                }
            },
            None => false,
        },
    }
}

} // verus!
