//! The page cache: for each page URL, the outgoing links found on it.

use sha2::{Digest, Sha256};
use std::collections::HashMap;
use vstd::hash_map::StringHashMap;
use vstd::prelude::*;

verus! {

/// The view of a list of strings.
pub open spec fn strings_view(v: Seq<String>) -> Seq<Seq<char>> {
    v.map_values(|s: String| s@)
}

/// The cache after recording `links` for `url`.
pub open spec fn cache_after_insert(
    m: Map<Seq<char>, Seq<Seq<char>>>,
    url: Seq<char>,
    links: Seq<Seq<char>>,
) -> Map<Seq<char>, Seq<Seq<char>>> {
    m.insert(url, links)
}

/// What a lookup of `url` reads from the cache.
pub open spec fn cache_lookup(m: Map<Seq<char>, Seq<Seq<char>>>, url: Seq<char>) -> Option<Seq<Seq<char>>> {
    if m.contains_key(url) {
        Some(m[url])
    } else {
        None
    }
}

/// The view of an optional list of strings.
pub open spec fn opt_strings_view(o: Option<Vec<String>>) -> Option<Seq<Seq<char>>> {
    match o {
        Some(v) => Some(strings_view(v@)),
        None => None,
    }
}

/// The cached outgoing links of each page that was fetched.
pub struct CachePages {
    map: StringHashMap<Vec<String>>,
    keys: Vec<String>,
}

impl View for CachePages {
    type V = Map<Seq<char>, Seq<Seq<char>>>;

    closed spec fn view(&self) -> Map<Seq<char>, Seq<Seq<char>>> {
        self.map@.map_values(|v: Vec<String>| strings_view(v@))
    }
}

impl CachePages {
    /// The cached pages in the order in which they were first inserted.
    pub closed spec fn order(&self) -> Seq<Seq<char>> {
        strings_view(self.keys@)
    }

    /// In a well-formed cache, the order lists each cached page exactly once.
    pub proof fn lemma_order(&self)
        requires
            self.wf(),
        ensures
            self.order().no_duplicates(),
            forall|k: Seq<char>| #[trigger] self@.contains_key(k) <==> self.order().contains(k),
    {
        assert forall|k: Seq<char>| #[trigger] self@.contains_key(k) <==> self.order().contains(k) by {
            assert(self@.contains_key(k) == self.map@.contains_key(k));
        }
    }

    /// Every key is listed exactly once, and the listing matches the map.
    pub closed spec fn wf(&self) -> bool {
        &&& strings_view(self.keys@).no_duplicates()
        &&& forall|k: Seq<char>| #[trigger] self.map@.contains_key(k) <==> strings_view(self.keys@).contains(k)
    }

    /// An empty cache.
    pub fn new() -> (r: Self)
        ensures
            r.wf(),
            r@ == Map::<Seq<char>, Seq<Seq<char>>>::empty(),
            r.order() == Seq::<Seq<char>>::empty(),
    {
        let r = CachePages { map: StringHashMap::new(), keys: Vec::new() };
        assert(r@ =~= Map::<Seq<char>, Seq<Seq<char>>>::empty());
        r
    }

    /// Every cached page with its links, in the order in which the pages were
    /// first inserted.
    pub fn entries(&self) -> (r: Vec<(String, Vec<String>)>)
        requires
            self.wf(),
        ensures
            r@.map_values(|e: (String, Vec<String>)| e.0@) == self.order(),
            forall|i: int| 0 <= i < r@.len() ==> self@.contains_key(#[trigger] r@[i].0@) && strings_view(r@[i].1@) == self@[r@[i].0@],
    {
        let mut r: Vec<(String, Vec<String>)> = Vec::new();
        let mut i: usize = 0;
        while i < self.keys.len()
            invariant
                self.wf(),
                i <= self.keys@.len(),
                r@.map_values(|e: (String, Vec<String>)| e.0@) == strings_view(self.keys@).take(i as int),
                forall|j: int| 0 <= j < r@.len() ==> self@.contains_key(#[trigger] r@[j].0@) && strings_view(r@[j].1@) == self@[r@[j].0@],
            decreases self.keys@.len() - i,
        {
            let key = &self.keys[i];
            proof {
                assert(strings_view(self.keys@)[i as int] == key@);
                assert(self.map@.contains_key(key@));
            }
            match self.map.get(key.as_str()) {
                Some(links) => {
                    let ghost before = r@.map_values(|e: (String, Vec<String>)| e.0@);
                    let c = links.clone();
                    proof {
                        assert(c@ =~= links@);
                    }
                    r.push((key.clone(), c));
                    proof {
                        assert(r@.map_values(|e: (String, Vec<String>)| e.0@) =~= before.push(key@));
                        assert(strings_view(self.keys@).take(i + 1) =~= strings_view(self.keys@).take(i as int).push(key@));
                    }
                },
                None => {},
            }
            i = i + 1;
        }
        proof {
            assert(strings_view(self.keys@).take(self.keys@.len() as int) =~= strings_view(self.keys@));
        }
        r
    }
}

/// Records the links found on `url`, replacing any earlier record for it.
pub fn cache_insert(cache: &mut CachePages, url: &str, links: Vec<String>)
    requires
        old(cache).wf(),
    ensures
        final(cache).wf(),
        final(cache)@ == cache_after_insert(old(cache)@, url@, strings_view(links@)),
        final(cache).order() == if old(cache)@.contains_key(url@) {
            old(cache).order()
        } else {
            old(cache).order().push(url@)
        },
{
    let ghost old_keys = strings_view(cache.keys@);
    if !cache.map.contains_key(url) {
        cache.keys.push(url.to_owned());
        proof {
            assert(strings_view(cache.keys@) =~= old_keys.push(url@));
        }
    }
    let ghost new_keys = strings_view(cache.keys@);
    proof {
        assert(new_keys == old_keys || new_keys == old_keys.push(url@));
        assert(new_keys.contains(url@)) by {
            if new_keys == old_keys {
                assert(old(cache).map@.contains_key(url@));
            } else {
                assert(new_keys[new_keys.len() - 1] == url@);
            }
        }
        assert forall|k: Seq<char>| k != url@ implies (new_keys.contains(k) <==> old_keys.contains(k)) by {
            if new_keys != old_keys {
                if new_keys.contains(k) {
                    let i = choose|i: int| 0 <= i < new_keys.len() && new_keys[i] == k;
                    assert(old_keys[i] == k);
                }
                if old_keys.contains(k) {
                    let i = choose|i: int| 0 <= i < old_keys.len() && old_keys[i] == k;
                    assert(new_keys[i] == k);
                }
            }
        }
        if new_keys != old_keys {
            assert(!old_keys.contains(url@));
        }
    }
    cache.map.insert(url.to_owned(), links);
    proof {
        assert(cache@ =~= old(cache)@.insert(url@, strings_view(links@)));
    }
}

/// The links recorded for `url`, if it was cached.
pub fn cache_get(cache: &CachePages, url: &str) -> (r: Option<Vec<String>>)
    ensures
        opt_strings_view(r) == cache_lookup(cache@, url@),
{
    match cache.map.get(url) {
        Some(v) => {
            let c = v.clone();
            proof {
                assert(c@ =~= v@);
            }
            Some(c)
        },
        None => None,
    }
}

/// The SHA-256 digest of `bytes`.
pub uninterp spec fn sha256_of(bytes: Seq<u8>) -> Seq<u8>;

/// `sha2::Sha256` (`new`, `update`, `finalize`): the digest of `bytes`, claimed to be
/// a function of the bytes alone and 32 bytes long (the output size of SHA-256).
#[verifier::external_body]
fn sha256_digest(bytes: &[u8]) -> (r: Vec<u8>)
    ensures
        r@ == sha256_of(bytes@),
        r@.len() == 32,
{
    let mut hasher = Sha256::new();
    hasher.update(bytes);
    hasher.finalize().to_vec()
}

/// The lower-case hexadecimal digit for `d` below 16.
pub open spec fn hex_digit(d: u8) -> char {
    if d < 10 {
        (('0' as u8) + d) as char
    } else {
        (('a' as u8) + d - 10) as char
    }
}

/// `bytes` in lower-case hexadecimal, two digits per byte, high half first.
pub open spec fn hex_lower(bytes: Seq<u8>) -> Seq<char>
    decreases bytes.len(),
{
    if bytes.len() == 0 {
        Seq::empty()
    } else {
        hex_lower(bytes.drop_last()) + seq![hex_digit(bytes.last() / 16), hex_digit(bytes.last() % 16)]
    }
}

/// `hex::encode`: each byte as two lower-case hexadecimal digits, high half
/// first (the crate's table `0123456789abcdef`).
#[verifier::external_body]
fn hex_encode(bytes: &[u8]) -> (r: String)
    ensures
        r@ == hex_lower(bytes@),
{
    hex::encode(bytes)
}

/// The text that `hash_str` gives for `s`: the hexadecimal SHA-256 digest of its
/// UTF-8 bytes, between double quotes.
pub open spec fn hash_text(s: Seq<char>) -> Seq<char> {
    seq!['"'] + hex_lower(sha256_of(vstd::utf8::encode_utf8(s))) + seq!['"']
}

/// The SHA-256 digest of `s`, in quoted lower-case hexadecimal.
pub fn hash_str(s: &str) -> (r: String)
    ensures
        r@ == hash_text(s@),
        r@.len() == 66,
{
    let digest = sha256_digest(s.as_bytes());
    let hex = hex_encode(digest.as_slice());
    let quoted = crate::text::concat("\"", hex.as_str());
    let r = crate::text::concat(quoted.as_str(), "\"");
    proof {
        reveal_strlit("\"");
        assert("\""@ =~= seq!['"']);
        lemma_hex_lower_len(digest@);
    }
    r
}

/// The view of a list of (page, links) entries.
pub open spec fn entries_view(e: Seq<(String, Vec<String>)>) -> Seq<(Seq<char>, Seq<Seq<char>>)> {
    e.map_values(|x: (String, Vec<String>)| (x.0@, strings_view(x.1@)))
}

/// The map that records the entries in order, a later entry for a page
/// replacing an earlier one.
pub open spec fn entries_map(e: Seq<(Seq<char>, Seq<Seq<char>>)>) -> Map<Seq<char>, Seq<Seq<char>>>
    decreases e.len(),
{
    if e.len() == 0 {
        Map::empty()
    } else {
        entries_map(e.drop_last()).insert(e.last().0, e.last().1)
    }
}

/// The page cache that `serde_json` reads from the JSON text `text`, as a map
/// from page to links; `None` where the text is not such a JSON object.
pub uninterp spec fn cache_json_map(text: Seq<char>) -> Option<Map<Seq<char>, Seq<Seq<char>>>>;

/// `serde_json::from_str::<HashMap<String, Vec<String>>>`, its entries listed:
/// `None` exactly where the parse fails; otherwise the entries, each page once,
/// hold the map that the name gives. Claimed: the map is a function of the text.
#[verifier::external_body]
fn parse_cache_json(text: &str) -> (r: Option<Vec<(String, Vec<String>)>>)
    ensures
        (r is None) == (cache_json_map(text@) is None),
        r matches Some(v) ==> cache_json_map(text@) == Some(entries_map(entries_view(v@))),
{
    match serde_json::from_str::<HashMap<String, Vec<String>>>(text) {
        Ok(m) => Some(m.into_iter().collect()),
        Err(_) => None,
    }
}

/// `serde_json::to_string_pretty` of the entries as a `HashMap<String, Vec<String>>`.
/// The order of the object's members follows the hash map's walk and is left open;
/// claimed: reading the text back gives the map of the entries (serde_json writes
/// each string escaped and each list in order, and its reader undoes that).
#[verifier::external_body]
fn cache_json_text(entries: &Vec<(String, Vec<String>)>) -> (r: String)
    ensures
        cache_json_map(r@) == Some(entries_map(entries_view(entries@))),
{
    let m: HashMap<String, Vec<String>> = entries.iter().cloned().collect();
    serde_json::to_string_pretty(&m).unwrap()
}

/// The pages of the entries are those listed, and with distinct pages each maps
/// to its entry's links.
pub proof fn lemma_entries_map(e: Seq<(Seq<char>, Seq<Seq<char>>)>)
    ensures
        forall|k: Seq<char>| #[trigger] entries_map(e).contains_key(k) <==> exists|j: int| 0 <= j < e.len() && e[j].0 == k,
        e.map_values(|x: (Seq<char>, Seq<Seq<char>>)| x.0).no_duplicates() ==>
            forall|j: int| 0 <= j < e.len() ==> entries_map(e)[#[trigger] e[j].0] == e[j].1,
    decreases e.len(),
{
    if e.len() > 0 {
        let p = e.drop_last();
        lemma_entries_map(p);
        assert forall|k: Seq<char>| #[trigger] entries_map(e).contains_key(k) <==> exists|j: int| 0 <= j < e.len() && e[j].0 == k by {
            if entries_map(e).contains_key(k) {
                if k != e.last().0 {
                    assert(entries_map(p).contains_key(k));
                    let j = choose|j: int| 0 <= j < p.len() && p[j].0 == k;
                    assert(e[j].0 == k);
                } else {
                    assert(e[e.len() - 1].0 == k);
                }
            }
            if exists|j: int| 0 <= j < e.len() && e[j].0 == k {
                let j = choose|j: int| 0 <= j < e.len() && e[j].0 == k;
                if j < p.len() {
                    assert(p[j].0 == k);
                    assert(entries_map(p).contains_key(k));
                }
            }
        }
        let keys = e.map_values(|x: (Seq<char>, Seq<Seq<char>>)| x.0);
        if keys.no_duplicates() {
            let pkeys = p.map_values(|x: (Seq<char>, Seq<Seq<char>>)| x.0);
            assert forall|a: int, b: int| 0 <= a < pkeys.len() && 0 <= b < pkeys.len() && a != b implies pkeys[a] != pkeys[b] by {
                assert(keys[a] == pkeys[a] && keys[b] == pkeys[b]);
            }
            assert forall|j: int| 0 <= j < e.len() implies entries_map(e)[#[trigger] e[j].0] == e[j].1 by {
                if j < p.len() {
                    assert(keys[j] != keys[e.len() - 1]);
                    assert(p[j] == e[j]);
                }
            }
        }
    }
}

/// Reads a page cache from its JSON text: `None` exactly where `serde_json`
/// refuses the text; otherwise the cache holds what the text holds.
pub fn cache_from_json(text: &str) -> (r: Option<CachePages>)
    ensures
        r is None <==> cache_json_map(text@) is None,
        r matches Some(c) ==> c.wf() && Some(c@) == cache_json_map(text@),
{
    let entries = match parse_cache_json(text) {
        Some(v) => v,
        None => return None,
    };
    let ghost ev = entries_view(entries@);
    let mut cache = CachePages::new();
    let mut i: usize = 0;
    while i < entries.len()
        invariant
            i <= entries@.len(),
            ev == entries_view(entries@),
            cache.wf(),
            cache@ == entries_map(ev.take(i as int)),
        decreases entries@.len() - i,
    {
        proof {
            assert(ev.take(i + 1).drop_last() =~= ev.take(i as int));
            assert(ev.take(i + 1).last() == ev[i as int]);
        }
        cache_insert(&mut cache, entries[i].0.as_str(), entries[i].1.clone());
        proof {
            assert(strings_view(entries[i as int].1@) == ev[i as int].1);
            assert(cache@ =~= entries_map(ev.take(i + 1)));
        }
        i = i + 1;
    }
    proof {
        assert(ev.take(entries@.len() as int) =~= ev);
    }
    Some(cache)
}

/// Writes the page cache as JSON text that reads back as the same cache.
pub fn cache_to_json(cache: &CachePages) -> (r: String)
    requires
        cache.wf(),
    ensures
        cache_json_map(r@) == Some(cache@),
{
    let entries = cache.entries();
    proof {
        let ev = entries_view(entries@);
        cache.lemma_order();
        let keys = ev.map_values(|x: (Seq<char>, Seq<Seq<char>>)| x.0);
        assert(keys =~= entries@.map_values(|e: (String, Vec<String>)| e.0@));
        lemma_entries_map(ev);
        assert forall|k: Seq<char>| #[trigger] entries_map(ev).contains_key(k) <==> cache@.contains_key(k) by {
            if cache@.contains_key(k) {
                assert(cache.order().contains(k));
                let j = choose|j: int| 0 <= j < keys.len() && keys[j] == k;
                assert(ev[j].0 == k);
            }
            if entries_map(ev).contains_key(k) {
                let j = choose|j: int| 0 <= j < ev.len() && ev[j].0 == k;
                assert(entries@[j].0@ == k);
            }
        }
        assert forall|k: Seq<char>| #[trigger] entries_map(ev).contains_key(k) implies entries_map(ev)[k] == cache@[k] by {
            let j = choose|j: int| 0 <= j < ev.len() && ev[j].0 == k;
            assert(entries@[j].0@ == k);
        }
        assert(entries_map(ev) =~= cache@);
    }
    cache_json_text(&entries)
}

/// Law: after `cache_insert` of `links` for `url`, `cache_get` of `url` reads
/// those links, and every other URL reads as before.
pub proof fn law_cache_get_after_insert(
    before: Map<Seq<char>, Seq<Seq<char>>>,
    url: Seq<char>,
    links: Seq<Seq<char>>,
    other: Seq<char>,
)
    ensures
        cache_lookup(cache_after_insert(before, url, links), url) == Some(links),
        other != url ==> cache_lookup(cache_after_insert(before, url, links), other) == cache_lookup(before, other),
{
}

/// `hex_lower` writes two digits per byte.
pub proof fn lemma_hex_lower_len(bytes: Seq<u8>)
    ensures
        hex_lower(bytes).len() == 2 * bytes.len(),
    decreases bytes.len(),
{
    if bytes.len() > 0 {
        lemma_hex_lower_len(bytes.drop_last());
    }
}

} // verus!
