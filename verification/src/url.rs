//! URL handling for the camera's plain `http://host:port/path` URLs.

use vstd::prelude::*;
use crate::text::{
    before, before_char, occurs_at, chars_of, concat, find, find_chars, lemma_find_from_bounds,
    lemma_rfind_bounds, rfind, rfind_chars, slice_chars, starts_with, starts_with_chars, string_of,
};
use crate::decimal::{parse_u16, parse_unsigned};

verus! {

/// The parts of an `http://host:port/path` URL (default port 80, default
/// path `/`), or the message that rejects it.
pub open spec fn split_url_spec(url: Seq<char>) -> Result<(Seq<char>, u16, Seq<char>), Seq<char>> {
    if !starts_with(url, "http://"@) {
        Err("only http:// is supported"@)
    } else {
        let rest = url.skip("http://"@.len() as int);
        let slash = match find(rest, seq!['/']) {
            Some(i) => i,
            None => rest.len() as int,
        };
        let authority = rest.take(slash);
        let path = if slash < rest.len() {
            rest.skip(slash)
        } else {
            "/"@
        };
        match rfind(authority, seq![':']) {
            Some(c) => match parse_unsigned(authority.skip(c + 1), u16::MAX as nat) {
                Some(port) => Ok((authority.take(c), port as u16, path)),
                None => Err("bad port"@),
            },
            None => Ok((authority, 80u16, path)),
        }
    }
}

pub open spec fn split_url_view(r: Result<(String, u16, String), String>) -> Result<
    (Seq<char>, u16, Seq<char>),
    Seq<char>,
> {
    match r {
        Ok((h, p, path)) => Ok((h@, p, path@)),
        Err(e) => Err(e@),
    }
}

/// Splits `http://host:port/path` into host, port and path.
pub fn split_url(url: &str) -> (r: Result<(String, u16, String), String>)
    ensures
        split_url_view(r) == split_url_spec(url@),
{
    let u = chars_of(url);
    let scheme = chars_of("http://");
    if !starts_with_chars(&u, &scheme) {
        return Err(string_of(&chars_of("only http:// is supported")));
    }
    let rest = slice_chars(&u, scheme.len(), u.len());
    let slash_pat = vec!['/'];
    assert(slash_pat@ =~= seq!['/']);
    let slash = match find_chars(&rest, &slash_pat) {
        Some(i) => i,
        None => rest.len(),
    };
    proof {
        lemma_find_from_bounds(rest@, slash_pat@, 0);
    }
    let authority = slice_chars(&rest, 0, slash);
    let path = if slash < rest.len() {
        slice_chars(&rest, slash, rest.len())
    } else {
        chars_of("/")
    };
    let colon_pat = vec![':'];
    assert(colon_pat@ =~= seq![':']);
    match rfind_chars(&authority, &colon_pat) {
        Some(c) => {
            proof {
                lemma_rfind_bounds(authority@, colon_pat@, authority@.len() + 1int);
            }
            let port_text = slice_chars(&authority, c + 1, authority.len());
            match parse_u16(&port_text) {
                Some(port) => {
                    let host = slice_chars(&authority, 0, c);
                    Ok((string_of(&host), port, string_of(&path)))
                },
                None => Err(string_of(&chars_of("bad port"))),
            }
        },
        None => Ok((string_of(&authority), 80, string_of(&path))),
    }
}

/// The host of `http://host:port/path`; empty for any other URL.
pub open spec fn host_of_spec(url: Seq<char>) -> Seq<char> {
    if starts_with(url, "http://"@) {
        before(before(url.skip("http://"@.len() as int), '/'), ':')
    } else {
        Seq::empty()
    }
}

/// Extracts the host from `http://host:port/path`.
pub fn host_of(url: &str) -> (r: String)
    ensures
        r@ == host_of_spec(url@),
{
    let u = chars_of(url);
    let scheme = chars_of("http://");
    if !starts_with_chars(&u, &scheme) {
        return String::new();
    }
    let rest = slice_chars(&u, scheme.len(), u.len());
    let authority = before_char(&rest, '/');
    string_of(&before_char(&authority, ':'))
}

/// `scheme://authority` of `base`, or `base` itself when it has no `://`.
pub open spec fn origin_of(base: Seq<char>) -> Seq<char> {
    match find(base, "://"@) {
        Some(i) => base.take(i) + "://"@ + before(base.skip(i + "://"@.len()), '/'),
        None => base,
    }
}

/// A possibly-relative reference resolved against the origin of `base`.
pub open spec fn resolve_url_spec(base: Seq<char>, reference: Seq<char>) -> Seq<char> {
    if starts_with(reference, "http://"@) || starts_with(reference, "https://"@) {
        reference
    } else if starts_with(reference, seq!['/']) {
        origin_of(base) + reference
    } else {
        origin_of(base) + seq!['/'] + reference
    }
}

/// Resolves a possibly-relative controlURL against the description URL's origin.
pub fn resolve_url(base: &str, reference: &str) -> (r: String)
    ensures
        r@ == resolve_url_spec(base@, reference@),
{
    let b = chars_of(base);
    let rf = chars_of(reference);
    if starts_with_chars(&rf, &chars_of("http://")) || starts_with_chars(&rf, &chars_of("https://")) {
        return string_of(&rf);
    }
    let sep = chars_of("://");
    let origin = match find_chars(&b, &sep) {
        Some(i) => {
            proof {
                lemma_find_from_bounds(b@, sep@, 0);
                assert(occurs_at(b@, sep@, i as int));
            }
            let scheme = slice_chars(&b, 0, i);
            let blen = b.len();
            assert(i + sep@.len() <= blen);
            let rest = slice_chars(&b, i + sep.len(), blen);
            let host = before_char(&rest, '/');
            concat(&concat(&scheme, &sep), &host)
        },
        None => b,
    };
    let slash = vec!['/'];
    assert(slash@ =~= seq!['/']);
    if starts_with_chars(&rf, &slash) {
        string_of(&concat(&origin, &rf))
    } else {
        string_of(&concat(&concat(&origin, &slash), &rf))
    }
}

} // verus!
