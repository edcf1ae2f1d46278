use geminispace_map::link::{normalize_link, GEMINI_DEFAULT_PORT};
use geminispace_map::text::to_ascii_lowercase;

#[test]
fn absolute_path_resolves_and_is_normalised() {
    assert_eq!(
        normalize_link("/about", "gemini://Example.COM:1965/index.gmi#top"),
        "gemini://example.com/about"
    );
}

#[test]
fn relative_path_resolves_against_the_page() {
    assert_eq!(normalize_link("docs/a.gmi", "gemini://host/dir/page.gmi"), "gemini://host/dir/docs/a.gmi");
}

#[test]
fn absolute_link_gets_root_path() {
    assert_eq!(normalize_link("gemini://other.org", "gemini://host/"), "gemini://other.org/");
}

#[test]
fn other_port_is_kept() {
    assert_eq!(normalize_link("gemini://h:1966/x", "gemini://host/"), "gemini://h:1966/x");
}

#[test]
fn default_port_is_dropped() {
    assert_eq!(GEMINI_DEFAULT_PORT, 1965);
    assert_eq!(normalize_link("gemini://h:1965/x", "gemini://host/"), "gemini://h/x");
}

#[test]
fn fragment_is_dropped() {
    assert_eq!(normalize_link("page.gmi#part", "gemini://host/a/"), "gemini://host/a/page.gmi");
}

#[test]
fn host_is_lower_cased() {
    assert_eq!(normalize_link("gemini://MiXeD.Org/Path", "gemini://host/"), "gemini://mixed.org/Path");
}

#[test]
fn unparsable_base_gives_link_back() {
    assert_eq!(normalize_link("x/y", "not a url"), "x/y");
}

#[test]
fn other_schemes_are_resolved_too() {
    assert_eq!(normalize_link("https://Web.Example/", "gemini://host/"), "https://web.example/");
}

#[test]
fn ascii_lowercase_keeps_other_characters() {
    assert_eq!(to_ascii_lowercase("ÄbC-Zé.ORG/Ü"), "Äbc-zé.org/Ü");
    assert_eq!(to_ascii_lowercase(""), "");
    assert_eq!(to_ascii_lowercase("AZaz@[`{"), "azaz@[`{");
}
