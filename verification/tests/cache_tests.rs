use geminispace_map::cache::{cache_get, cache_insert, hash_str, CachePages};

fn strings(v: &[&str]) -> Vec<String> {
    v.iter().map(|s| s.to_string()).collect()
}

#[test]
fn get_after_insert_gives_the_links() {
    let mut c = CachePages::new();
    cache_insert(&mut c, "gemini://a/", strings(&["gemini://b/", "gemini://c/"]));
    assert_eq!(cache_get(&c, "gemini://a/"), Some(strings(&["gemini://b/", "gemini://c/"])));
}

#[test]
fn missing_url_is_none() {
    let mut c = CachePages::new();
    assert_eq!(cache_get(&c, "gemini://a/"), None);
    cache_insert(&mut c, "gemini://a/", vec![]);
    assert_eq!(cache_get(&c, "gemini://b/"), None);
    assert_eq!(cache_get(&c, "gemini://a/"), Some(vec![]));
}

#[test]
fn insert_replaces_and_keeps_others() {
    let mut c = CachePages::new();
    cache_insert(&mut c, "gemini://a/", strings(&["gemini://x/"]));
    cache_insert(&mut c, "gemini://b/", strings(&["gemini://y/"]));
    cache_insert(&mut c, "gemini://a/", strings(&["gemini://z/"]));
    assert_eq!(cache_get(&c, "gemini://a/"), Some(strings(&["gemini://z/"])));
    assert_eq!(cache_get(&c, "gemini://b/"), Some(strings(&["gemini://y/"])));
    assert_eq!(c.entries().len(), 2);
}

#[test]
fn entries_list_each_url_once() {
    let mut c = CachePages::new();
    cache_insert(&mut c, "gemini://a/", strings(&["gemini://x/"]));
    cache_insert(&mut c, "gemini://b/", vec![]);
    cache_insert(&mut c, "gemini://a/", strings(&["gemini://w/"]));
    let e = c.entries();
    // first-insertion order
    assert_eq!(e, vec![
        ("gemini://a/".to_string(), strings(&["gemini://w/"])),
        ("gemini://b/".to_string(), vec![]),
    ]);
}

#[test]
fn hash_str_is_quoted_sha256_hex() {
    assert_eq!(
        hash_str("abc"),
        "\"ba7816bf8f01cfea414140de5dae2223b00361a396177a9cb410ff61f20015ad\""
    );
    assert_eq!(
        hash_str(""),
        "\"e3b0c44298fc1c149afbf4c8996fb92427ae41e4649b934ca495991b7852b855\""
    );
    assert_eq!(hash_str("gemini://x/").len(), 66);
}

#[test]
fn cache_reads_from_json() {
    let c = geminispace_map::cache::cache_from_json(
        r#"{"gemini://a/": ["gemini://b/", "gemini://c/"], "gemini://b/": []}"#,
    )
    .unwrap();
    assert_eq!(cache_get(&c, "gemini://a/"), Some(strings(&["gemini://b/", "gemini://c/"])));
    assert_eq!(cache_get(&c, "gemini://b/"), Some(vec![]));
    assert_eq!(cache_get(&c, "gemini://c/"), None);
}

#[test]
fn invalid_cache_json_is_refused() {
    assert!(geminispace_map::cache::cache_from_json("not json").is_none());
    assert!(geminispace_map::cache::cache_from_json(r#"{"gemini://a/": "x"}"#).is_none());
    assert!(geminispace_map::cache::cache_from_json("[]").is_none());
}

#[test]
fn cache_json_round_trip() {
    let mut c = CachePages::new();
    cache_insert(&mut c, "gemini://a/", strings(&["gemini://b/", "gemini://\"q\"/"]));
    cache_insert(&mut c, "gemini://b/", vec![]);
    let text = geminispace_map::cache::cache_to_json(&c);
    let d = geminispace_map::cache::cache_from_json(&text).unwrap();
    assert_eq!(cache_get(&d, "gemini://a/"), Some(strings(&["gemini://b/", "gemini://\"q\"/"])));
    assert_eq!(cache_get(&d, "gemini://b/"), Some(vec![]));
    assert_eq!(d.entries().len(), 2);
}
