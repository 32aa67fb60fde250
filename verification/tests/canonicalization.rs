use sitemap_generator::urls::{canonicalize, serialize, SiteUrl};
use sitemap_generator::utils::{filter_http, normalize};

fn parse(s: &str) -> SiteUrl {
    SiteUrl::parse(s).expect("URL should parse")
}

fn ser(u: &SiteUrl) -> Vec<u8> {
    serialize(u)
}

#[test]
fn canonicalize_sorts_query_and_drops_fragment() {
    let u = parse("http://h/p?b=2&a=1#frag");
    let c = canonicalize(u, false);
    assert_eq!(ser(&c), b"http://h/p?a=1&b=2".to_vec());
}

#[test]
fn canonicalize_sorts_by_key_then_value() {
    let u = parse("http://h/p?a=2&a=1&b=0");
    let c = canonicalize(u, false);
    assert_eq!(ser(&c), b"http://h/p?a=1&a=2&b=0".to_vec());
}

#[test]
fn canonicalize_is_idempotent_on_example() {
    let once = canonicalize(parse("http://h/p?z=9&a=1&m=5#x"), false);
    let twice = canonicalize(canonicalize(parse("http://h/p?z=9&a=1&m=5#x"), false), false);
    assert_eq!(ser(&once), ser(&twice));
}

#[test]
fn canonicalize_ignores_query_order_and_fragment() {
    let a = canonicalize(parse("http://h/?a=1&b=2#x"), false);
    let b = canonicalize(parse("http://h/?b=2&a=1"), false);
    assert_eq!(ser(&a), ser(&b));
}

#[test]
fn strip_removes_query_and_fragment_entirely() {
    let u = parse("http://h/p?a=1&b=2#x");
    let c = canonicalize(u, true);
    assert_eq!(ser(&c), b"http://h/p".to_vec());
}

#[test]
fn normalize_is_default_canonical_form() {
    let n = normalize(parse("http://h/p?b=2&a=1#f"));
    let c = canonicalize(parse("http://h/p?b=2&a=1#f"), false);
    assert_eq!(ser(&n), ser(&c));
}

#[test]
fn canonicalize_without_query_keeps_serialization() {
    let c = canonicalize(parse("http://h/plain"), false);
    assert_eq!(ser(&c), b"http://h/plain".to_vec());
}

#[test]
fn parse_normalizes_scheme_and_host_case() {
    let u = parse("HTTP://EXAMPLE.com/Path");
    assert_eq!(ser(&u), b"http://example.com/Path".to_vec());
    assert!(filter_http(&u));
}

#[test]
fn parse_keeps_percent_encoding_untouched() {
    let c = canonicalize(parse("http://h/p?a=%2Fx"), false);
    assert_eq!(ser(&c), b"http://h/p?a=%2Fx".to_vec());
}

#[test]
fn parse_rejects_opaque_and_invalid_urls() {
    assert!(SiteUrl::parse("mailto:someone@example.com").is_none());
    assert!(SiteUrl::parse("not a url").is_none());
    assert!(SiteUrl::parse("/relative/only").is_none());
}

#[test]
fn filter_http_accepts_only_http_and_https() {
    assert!(filter_http(&parse("http://h/")));
    assert!(filter_http(&parse("https://h/")));
    assert!(!filter_http(&parse("ftp://h/")));
}

#[test]
fn join_resolves_relative_references() {
    let base = ser(&parse("http://h/dir/page"));
    let joined = SiteUrl::join(&base, &b"../x".to_vec()).expect("join should work");
    assert_eq!(ser(&joined), b"http://h/x".to_vec());
    let joined2 = SiteUrl::join(&base, &b"sub".to_vec()).expect("join should work");
    assert_eq!(ser(&joined2), b"http://h/dir/sub".to_vec());
}

#[test]
fn join_rejects_unresolvable_reference() {
    let base = ser(&parse("http://h/"));
    assert!(SiteUrl::join(&base, &b"http://[bad".to_vec()).is_none());
}
