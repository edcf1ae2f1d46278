//! What the crawler does with a gemini response: follow a redirect, take the
//! page, or fail; and which of a page's links it keeps.

use crate::cache::strings_view;
use crate::link::{normalize_link, normalized_link};
use crate::text::{ends_with, has_prefix, has_suffix, starts_with};
use vstd::prelude::*;
use vstd::utf8::{decode_utf8, valid_utf8};

verus! {

/// The status of a gemini response header: the first digit selects the
/// variant, which holds the second digit; `Unknown` holds the whole code.
#[derive(Clone, Copy, Debug, PartialEq, Eq, Structural)]
pub enum GeminiStatus {
    Input(u8),
    Success(u8),
    Redirect(u8),
    TemporaryFailure(u8),
    PermanentFailure(u8),
    ClientCertRequired(u8),
    Unknown(u8),
}

/// Why a request gave no page.
#[derive(Clone, Debug, PartialEq, Eq)]
pub enum RequestError {
    /// The server answered with a permanent failure (5x), with its meta text.
    PermanentFailure { code: u8, meta: String },
    /// The server answered with a status the crawler does not handle.
    UnexpectedStatus(GeminiStatus),
}

/// What to do after a response.
pub enum ResponseStep {
    /// Request the URL given in the meta text.
    Redirect(String),
    /// The page body, as text.
    Page(String),
    /// Stop with an error.
    Failed(RequestError),
}

/// The text that `String::from_utf8_lossy` makes of `bytes`.
pub uninterp spec fn utf8_lossy_text(bytes: Seq<u8>) -> Seq<char>;

/// `String::from_utf8_lossy(..).into_owned()`: claimed to be a function of the
/// bytes alone, and to decode valid UTF-8 exactly (its documentation); what it makes
/// of invalid sequences is left to the name.
#[verifier::external_body]
fn from_utf8_lossy(bytes: &Vec<u8>) -> (r: String)
    ensures
        r@ == utf8_lossy_text(bytes@),
        valid_utf8(bytes@) ==> r@ == decode_utf8(bytes@),
{
    String::from_utf8_lossy(bytes).into_owned()
}

/// Decides what follows a response with the given status, meta text and body.
pub fn handle_response(status: GeminiStatus, meta: String, data: Vec<u8>) -> (r: ResponseStep)
    ensures
        match status {
            GeminiStatus::Redirect(_) => r matches ResponseStep::Redirect(m) && m@ == meta@,
            GeminiStatus::Success(_) => r matches ResponseStep::Page(p) && p@ == utf8_lossy_text(data@)
                && (valid_utf8(data@) ==> p@ == decode_utf8(data@)),
            GeminiStatus::PermanentFailure(c) => r matches ResponseStep::Failed(RequestError::PermanentFailure { code, meta: m })
                && code == c && m@ == meta@,
            _ => r matches ResponseStep::Failed(RequestError::UnexpectedStatus(s)) && s == status,
        },
{
    match status {
        GeminiStatus::Redirect(_) => ResponseStep::Redirect(meta),
        GeminiStatus::Success(_) => ResponseStep::Page(from_utf8_lossy(&data)),
        GeminiStatus::PermanentFailure(c) => ResponseStep::Failed(RequestError::PermanentFailure { code: c, meta }),
        s => ResponseStep::Failed(RequestError::UnexpectedStatus(s)),
    }
}

/// The file extensions of links that the crawler does not follow.
pub open spec fn skipped_extensions() -> Seq<Seq<char>> {
    seq![".mp3"@, ".opus"@, ".wav"@, ".flac"@, ".mp4"@, ".png"@, ".webp"@, ".jpeg"@, ".jpg"@, ".exe"@, ".fontpack"@]
}

/// Whether a link ends with one of the skipped extensions.
pub open spec fn has_skipped_extension(link: Seq<char>) -> bool {
    exists|i: int| 0 <= i < skipped_extensions().len() && has_suffix(link, #[trigger] skipped_extensions()[i])
}

/// Whether a normalised link is kept: a gemini URL that names no media or binary file.
pub open spec fn kept_link(link: Seq<char>) -> bool {
    has_prefix(link, "gemini://"@) && !has_skipped_extension(link)
}

/// The links of a page at `url` that the crawler follows: each raw link is
/// normalised against `url`, and those that are kept remain, in order.
pub open spec fn page_links(url: Seq<char>, raw: Seq<Seq<char>>) -> Seq<Seq<char>> {
    raw.map_values(|l: Seq<char>| normalized_link(l, url)).filter(|l: Seq<char>| kept_link(l))
}

/// Whether `link` ends with one of the skipped extensions.
fn ends_with_skipped_extension(link: &str) -> (r: bool)
    ensures
        r == has_skipped_extension(link@),
{
    let exts = [".mp3", ".opus", ".wav", ".flac", ".mp4", ".png", ".webp", ".jpeg", ".jpg", ".exe", ".fontpack"];
    assert(exts@.map_values(|e: &str| e@) =~= skipped_extensions());
    let mut i: usize = 0;
    while i < 11
        invariant
            i <= 11,
            exts@.len() == 11,
            exts@.map_values(|e: &str| e@) == skipped_extensions(),
            forall|j: int| 0 <= j < i ==> !has_suffix(link@, #[trigger] skipped_extensions()[j]),
        decreases 11 - i,
    {
        assert(exts@[i as int]@ == skipped_extensions()[i as int]);
        if ends_with(link, exts[i]) {
            return true;
        }
        i = i + 1;
    }
    false
}

/// Whether a normalised link is followed.
pub fn is_kept_link(link: &str) -> (r: bool)
    ensures
        r == kept_link(link@),
{
    starts_with(link, "gemini://") && !ends_with_skipped_extension(link)
}

/// The links of the page at `url` that the crawler follows, from the raw
/// link targets found in its gemtext.
pub fn extract_links(url: &str, raw: Vec<String>) -> (r: Vec<String>)
    ensures
        strings_view(r@) == page_links(url@, strings_view(raw@)),
{
    let ghost normalized = strings_view(raw@).map_values(|l: Seq<char>| normalized_link(l, url@));
    let ghost keep = |l: Seq<char>| kept_link(l);
    let mut r: Vec<String> = Vec::new();
    let mut i: usize = 0;
    while i < raw.len()
        invariant
            i <= raw@.len(),
            normalized == strings_view(raw@).map_values(|l: Seq<char>| normalized_link(l, url@)),
            keep == (|l: Seq<char>| kept_link(l)),
            strings_view(r@) == normalized.take(i as int).filter(keep),
        decreases raw@.len() - i,
    {
        let n = normalize_link(raw[i].as_str(), url);
        let ghost before = strings_view(r@);
        proof {
            assert(normalized[i as int] == n@);
            assert(normalized.take(i + 1) =~= normalized.take(i as int).push(n@));
            normalized.take(i as int).lemma_filter_push(n@, keep);
        }
        if is_kept_link(n.as_str()) {
            r.push(n);
            proof {
                assert(strings_view(r@) =~= before.push(n@));
            }
        }
        i = i + 1;
    }
    proof {
        assert(normalized.take(raw@.len() as int) =~= normalized);
    }
    r
}

/// Law: a normalised link is kept exactly when it begins with "gemini://" and does
/// not end with ".mp3", ".opus", ".wav", ".flac", ".mp4", ".png", ".webp",
/// ".jpeg", ".jpg", ".exe" or ".fontpack"; so no page's kept links hold a link with
/// one of those endings.
pub proof fn law_kept_link_extensions(link: Seq<char>)
    ensures
        kept_link(link) <==> has_prefix(link, "gemini://"@) && !(
            has_suffix(link, ".mp3"@) || has_suffix(link, ".opus"@) || has_suffix(link, ".wav"@)
            || has_suffix(link, ".flac"@) || has_suffix(link, ".mp4"@) || has_suffix(link, ".png"@)
            || has_suffix(link, ".webp"@) || has_suffix(link, ".jpeg"@) || has_suffix(link, ".jpg"@)
            || has_suffix(link, ".exe"@) || has_suffix(link, ".fontpack"@)),
        (has_suffix(link, ".mp3"@) || has_suffix(link, ".opus"@) || has_suffix(link, ".wav"@)
            || has_suffix(link, ".flac"@) || has_suffix(link, ".mp4"@) || has_suffix(link, ".png"@)
            || has_suffix(link, ".webp"@) || has_suffix(link, ".jpeg"@) || has_suffix(link, ".jpg"@)
            || has_suffix(link, ".exe"@) || has_suffix(link, ".fontpack"@))
            ==> forall|url: Seq<char>, raw: Seq<Seq<char>>| !(#[trigger] page_links(url, raw)).contains(link),
{
    let e = skipped_extensions();
    assert(e[0] == ".mp3"@);
    assert(e[1] == ".opus"@);
    assert(e[2] == ".wav"@);
    assert(e[3] == ".flac"@);
    assert(e[4] == ".mp4"@);
    assert(e[5] == ".png"@);
    assert(e[6] == ".webp"@);
    assert(e[7] == ".jpeg"@);
    assert(e[8] == ".jpg"@);
    assert(e[9] == ".exe"@);
    assert(e[10] == ".fontpack"@);
    assert(e.len() == 11);
    if has_skipped_extension(link) {
        let i = choose|i: int| 0 <= i < e.len() && has_suffix(link, #[trigger] e[i]);
        assert(0 <= i < 11);
    }
    assert forall|url: Seq<char>, raw: Seq<Seq<char>>| has_skipped_extension(link)
        implies !(#[trigger] page_links(url, raw)).contains(link) by {
        law_page_links(url, raw);
        if page_links(url, raw).contains(link) {
            let k = choose|k: int| 0 <= k < page_links(url, raw).len() && page_links(url, raw)[k] == link;
            assert(!has_skipped_extension(page_links(url, raw)[k]));
        }
    }
}

/// Law: every link the crawler keeps from a page begins with "gemini://" and names
/// no skipped file type; every raw link whose normalised form is so is kept; and
/// no more links are kept than were found.
pub proof fn law_page_links(url: Seq<char>, raw: Seq<Seq<char>>)
    ensures
        forall|i: int| 0 <= i < page_links(url, raw).len() ==> {
            &&& has_prefix(#[trigger] page_links(url, raw)[i], "gemini://"@)
            &&& !has_skipped_extension(page_links(url, raw)[i])
        },
        forall|i: int| 0 <= i < raw.len() && kept_link(normalized_link(raw[i], url)) ==>
            #[trigger] page_links(url, raw).contains(normalized_link(raw[i], url)),
        page_links(url, raw).len() <= raw.len(),
{
    let normalized = raw.map_values(|l: Seq<char>| normalized_link(l, url));
    let keep = |l: Seq<char>| kept_link(l);
    normalized.filter_lemma(keep);
    assert forall|i: int| 0 <= i < raw.len() && kept_link(normalized_link(raw[i], url)) implies
        #[trigger] page_links(url, raw).contains(normalized_link(raw[i], url)) by {
        assert(normalized[i] == normalized_link(raw[i], url));
        assert(keep(normalized[i]));
    }
}

} // verus!
