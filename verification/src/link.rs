//! Normalisation of gemini links, so that one page has one key in the
//! graph and in the cache.

use crate::text::{ascii_lower, to_ascii_lowercase};
use url::Url;
use vstd::prelude::*;

verus! {

/// The port that a gemini URL has when it names none.
pub const GEMINI_DEFAULT_PORT: u16 = 1965;

/// The view of an optional string.
pub open spec fn opt_view(o: Option<String>) -> Option<Seq<char>> {
    match o {
        Some(s) => Some(s@),
        None => None,
    }
}

/// The serialization of the URL that `Url::parse` reads from `s`, if it reads one.
pub uninterp spec fn url_parse_text(s: Seq<char>) -> Option<Seq<char>>;

/// The serialization of `link` resolved by `Url::join` against the URL read from `base`.
pub uninterp spec fn url_join_text(base: Seq<char>, link: Seq<char>) -> Option<Seq<char>>;

/// `Url::port` of the URL read from `u`.
pub uninterp spec fn url_port_of(u: Seq<char>) -> Option<u16>;

/// The URL read from `u` after `Url::set_port(None)`.
pub uninterp spec fn url_clear_port(u: Seq<char>) -> Seq<char>;

/// The URL read from `u` after `Url::set_fragment(None)`.
pub uninterp spec fn url_clear_fragment(u: Seq<char>) -> Seq<char>;

/// `Url::host_str` of the URL read from `u`.
pub uninterp spec fn url_host_of(u: Seq<char>) -> Option<Seq<char>>;

/// The URL read from `u` after `Url::set_host(Some(host))`, if that succeeds.
pub uninterp spec fn url_replace_host(u: Seq<char>, host: Seq<char>) -> Option<Seq<char>>;

/// `Url::path` of the URL read from `u`.
pub uninterp spec fn url_path_of(u: Seq<char>) -> Seq<char>;

/// The URL read from `u` after `Url::set_path(path)`.
pub uninterp spec fn url_replace_path(u: Seq<char>, path: Seq<char>) -> Seq<char>;

/// `url::Url::parse`: the serialization of the URL read from `s`, or `None` where
/// the parser refuses `s`. Claimed: the result is a function of `s` alone.
#[verifier::external_body]
fn parse_url(s: &str) -> (r: Option<String>)
    ensures
        opt_view(r) == url_parse_text(s@),
{
    Url::parse(s).ok().map(String::from)
}

/// `url::Url::join`: `link` resolved against the URL read from `base`; `None` where
/// either parse fails. Claimed: the result is a function of `base` and `link` alone.
#[verifier::external_body]
fn join_url(base: &str, link: &str) -> (r: Option<String>)
    ensures
        opt_view(r) == url_join_text(base@, link@),
{
    match Url::parse(base) {
        Ok(b) => b.join(link).ok().map(String::from),
        Err(_) => None,
    }
}

/// `url::Url::port` of the URL read from `u`. Claimed: a function of `u` alone.
#[verifier::external_body]
fn url_port(u: &str) -> (r: Option<u16>)
    ensures
        r == url_port_of(u@),
{
    match Url::parse(u) {
        Ok(x) => x.port(),
        Err(_) => None,
    }
}

/// `url::Url::set_port(None)` on the URL read from `u`, giving its new serialization
/// (the same URL where the crate refuses the change). Claimed: a function of `u` alone.
#[verifier::external_body]
fn url_without_port(u: &str) -> (r: String)
    ensures
        r@ == url_clear_port(u@),
{
    match Url::parse(u) {
        Ok(mut x) => {
            let _ = x.set_port(None);
            x.into()
        },
        Err(_) => u.to_string(),
    }
}

/// `url::Url::set_fragment(None)` on the URL read from `u`, giving its new
/// serialization. Claimed: a function of `u` alone.
#[verifier::external_body]
fn url_without_fragment(u: &str) -> (r: String)
    ensures
        r@ == url_clear_fragment(u@),
{
    match Url::parse(u) {
        Ok(mut x) => {
            x.set_fragment(None);
            x.into()
        },
        Err(_) => u.to_string(),
    }
}

/// `url::Url::host_str` of the URL read from `u`. Claimed: a function of `u` alone.
#[verifier::external_body]
fn url_host(u: &str) -> (r: Option<String>)
    ensures
        opt_view(r) == url_host_of(u@),
{
    match Url::parse(u) {
        Ok(x) => x.host_str().map(String::from),
        Err(_) => None,
    }
}

/// `url::Url::set_host(Some(host))` on the URL read from `u`, giving its new
/// serialization, or `None` where the crate refuses the host. Claimed: a function of
/// `u` and `host` alone.
#[verifier::external_body]
fn url_with_host(u: &str, host: &str) -> (r: Option<String>)
    ensures
        opt_view(r) == url_replace_host(u@, host@),
{
    match Url::parse(u) {
        Ok(mut x) => match x.set_host(Some(host)) {
            Ok(()) => Some(x.into()),
            Err(_) => None,
        },
        Err(_) => None,
    }
}

/// `url::Url::path` of the URL read from `u`. Claimed: a function of `u` alone.
#[verifier::external_body]
fn url_path(u: &str) -> (r: String)
    ensures
        r@ == url_path_of(u@),
{
    match Url::parse(u) {
        Ok(x) => x.path().to_string(),
        Err(_) => String::new(),
    }
}

/// `url::Url::set_path(path)` on the URL read from `u`, giving its new
/// serialization. Claimed: a function of `u` and `path` alone.
#[verifier::external_body]
fn url_with_path(u: &str, path: &str) -> (r: String)
    ensures
        r@ == url_replace_path(u@, path@),
{
    match Url::parse(u) {
        Ok(mut x) => {
            x.set_path(path);
            x.into()
        },
        Err(_) => u.to_string(),
    }
}

/// The serialization after normalisation: the default gemini port is dropped,
/// the fragment is dropped, the host is lower-cased, and an empty path becomes "/".
pub open spec fn normalized_text(u: Seq<char>) -> Seq<char> {
    let u1 = if url_port_of(u) == Some(GEMINI_DEFAULT_PORT) {
        url_clear_port(u)
    } else {
        u
    };
    let u2 = url_clear_fragment(u1);
    let u3 = match url_host_of(u2) {
        Some(h) => match url_replace_host(u2, ascii_lower(h)) {
            Some(v) => v,
            None => u2,
        },
        None => u2,
    };
    if url_path_of(u3).len() == 0 {
        url_replace_path(u3, seq!['/'])
    } else {
        u3
    }
}

/// `link` resolved against `base` and normalised; `link` itself where `base`
/// is no URL or `link` cannot be resolved against it.
pub open spec fn normalized_link(link: Seq<char>, base: Seq<char>) -> Seq<char> {
    match url_parse_text(base) {
        None => link,
        Some(b) => match url_join_text(b, link) {
            None => link,
            Some(j) => normalized_text(j),
        },
    }
}

/// Normalises the URL serialized as `url`. Where the crate refuses the
/// lower-cased host, the host is left as it was.
fn normalize_url(url: String) -> (r: String)
    ensures
        r@ == normalized_text(url@),
{
    let u1 = match url_port(&url) {
        Some(p) => if p == GEMINI_DEFAULT_PORT {
            url_without_port(&url)
        } else {
            url
        },
        None => url,
    };
    let u2 = url_without_fragment(&u1);
    let u3 = match url_host(&u2) {
        Some(h) => {
            let lower = to_ascii_lowercase(&h);
            match url_with_host(&u2, &lower) {
                Some(v) => v,
                None => u2,
            }
        },
        None => u2,
    };
    let path = url_path(&u3);
    if path.as_str().is_empty() {
        let r = url_with_path(&u3, "/");
        proof {
            reveal_strlit("/");
            assert("/"@ =~= seq!['/']);
        }
        r
    } else {
        u3
    }
}

/// Normalises a gemini link relative to the page `base` it was found on, so
/// that it can serve as a graph and cache key.
pub fn normalize_link(link: &str, base: &str) -> (r: String)
    ensures
        r@ == normalized_link(link@, base@),
{
    let b = match parse_url(base) {
        Some(b) => b,
        None => return link.to_owned(),
    };
    let j = match join_url(&b, link) {
        Some(j) => j,
        None => return link.to_owned(),
    };
    normalize_url(j)
}

/// Whether the URL `u` is settled in all but its fragment: it names no default
/// gemini port, its host (where it has one) is in lower case already and setting
/// it again changes nothing, and its path is not empty.
pub open spec fn normal_but_fragment(u: Seq<char>) -> bool {
    &&& url_port_of(u) != Some(GEMINI_DEFAULT_PORT)
    &&& (url_host_of(url_clear_fragment(u)) matches Some(h) ==> ascii_lower(h) == h
        && url_replace_host(url_clear_fragment(u), h) == Some(url_clear_fragment(u)))
    &&& url_path_of(url_clear_fragment(u)).len() > 0
}

/// Law: normalisation only drops the default port, drops the fragment, lower-cases
/// the host and gives an empty path "/". So a URL with no default port, a
/// lower-case host and a non-empty path comes out as the same URL without its
/// fragment: its path (a trailing "/" included) and its query are kept; a URL
/// that has no fragment either comes out unchanged; and one that names the
/// default port comes out without the port and the fragment, nothing else changed.
pub proof fn law_normalize_keeps(u: Seq<char>)
    ensures
        normal_but_fragment(u) ==> normalized_text(u) == url_clear_fragment(u),
        normal_but_fragment(u) && url_clear_fragment(u) == u ==> normalized_text(u) == u,
        url_port_of(u) == Some(GEMINI_DEFAULT_PORT) && normal_but_fragment(url_clear_port(u))
            ==> normalized_text(u) == url_clear_fragment(url_clear_port(u)),
{
}

/// Law: a link is normalised by resolving it against its page and normalising the
/// result; where the resolved URL has no default port, a lower-case host and a
/// non-empty path, the link's key is the resolved URL without its fragment (its
/// path and query kept as the url crate resolved them).
pub proof fn law_normalize_link_keeps(link: Seq<char>, base: Seq<char>, b: Seq<char>, j: Seq<char>)
    requires
        url_parse_text(base) == Some(b),
        url_join_text(b, link) == Some(j),
        normal_but_fragment(j),
    ensures
        normalized_link(link, base) == url_clear_fragment(j),
        url_clear_fragment(j) == j ==> normalized_link(link, base) == j,
{
    law_normalize_keeps(j);
}

} // verus!
