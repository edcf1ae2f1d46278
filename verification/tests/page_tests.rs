use geminispace_map::page::{extract_links, handle_response, is_kept_link, GeminiStatus, RequestError, ResponseStep};

fn strings(v: &[&str]) -> Vec<String> {
    v.iter().map(|s| s.to_string()).collect()
}

#[test]
fn links_are_normalised_and_filtered() {
    let raw = strings(&[
        "/about",
        "https://example.org/",
        "gopher://hole/",
        "song.mp3",
        "pic.png",
        "gemini://Other.Net:1965/x#y",
        "mailto:someone@example.org",
        "notes.gmi",
    ]);
    assert_eq!(
        extract_links("gemini://host/dir/index.gmi", raw),
        strings(&["gemini://host/about", "gemini://other.net/x", "gemini://host/dir/notes.gmi"])
    );
}

#[test]
fn no_links_gives_none() {
    assert_eq!(extract_links("gemini://host/", vec![]), Vec::<String>::new());
}

#[test]
fn kept_links() {
    assert!(is_kept_link("gemini://a/b.gmi"));
    assert!(!is_kept_link("https://a/b.gmi"));
    assert!(!is_kept_link("gemini://a/b.jpeg"));
    assert!(!is_kept_link("gemini://a/b.fontpack"));
    assert!(!is_kept_link("gemini://a/setup.exe"));
    assert!(is_kept_link("gemini://a/b.mp3.gmi"));
    assert!(!is_kept_link("gemini:/"));
}

#[test]
fn redirect_is_followed() {
    match handle_response(GeminiStatus::Redirect(1), "gemini://new/".to_string(), vec![]) {
        ResponseStep::Redirect(m) => assert_eq!(m, "gemini://new/"),
        _ => panic!("expected a redirect"),
    }
}

#[test]
fn success_gives_the_page() {
    match handle_response(GeminiStatus::Success(0), "text/gemini".to_string(), b"# Hi\n=> /a".to_vec()) {
        ResponseStep::Page(p) => assert_eq!(p, "# Hi\n=> /a"),
        _ => panic!("expected a page"),
    }
}

#[test]
fn success_with_invalid_utf8_is_lossy() {
    match handle_response(GeminiStatus::Success(0), String::new(), vec![0x61, 0xff, 0x62]) {
        ResponseStep::Page(p) => assert_eq!(p, "a\u{fffd}b"),
        _ => panic!("expected a page"),
    }
}

#[test]
fn permanent_failure_is_an_error() {
    match handle_response(GeminiStatus::PermanentFailure(1), "Not found".to_string(), vec![]) {
        ResponseStep::Failed(e) => assert_eq!(e, RequestError::PermanentFailure { code: 1, meta: "Not found".to_string() }),
        _ => panic!("expected a failure"),
    }
}

#[test]
fn other_statuses_are_unexpected() {
    for s in [
        GeminiStatus::Input(0),
        GeminiStatus::TemporaryFailure(4),
        GeminiStatus::ClientCertRequired(0),
        GeminiStatus::Unknown(99),
    ] {
        match handle_response(s, String::new(), vec![]) {
            ResponseStep::Failed(e) => assert_eq!(e, RequestError::UnexpectedStatus(s)),
            _ => panic!("expected a failure"),
        }
    }
}

#[test]
fn success_with_valid_utf8_is_exact() {
    match handle_response(GeminiStatus::Success(0), String::new(), "héllo ☃".as_bytes().to_vec()) {
        ResponseStep::Page(p) => assert_eq!(p, "héllo ☃"),
        _ => panic!("expected a page"),
    }
}
