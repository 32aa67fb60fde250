use sitemap_generator::processing::analyze_html;
use sitemap_generator::urls::{serialize, SiteUrl};
use sitemap_generator::{Options, Validator};

fn parse(s: &str) -> SiteUrl {
    SiteUrl::parse(s).expect("URL should parse")
}

fn extract(site: &str, html: &str, scope: &str, strip: bool) -> Vec<Vec<u8>> {
    let options = Options::new(4, strip, 50, false);
    let v = Validator::new(&vec![parse(scope)]);
    let links = analyze_html(&parse(site), &html.as_bytes().to_vec(), &v, &options);
    links.iter().map(serialize).collect()
}

#[test]
fn extracts_and_resolves_links_in_order() {
    let html = r#"<html><body><a href="/x">x</a><a href="http://h/y?b=1&a=2#f">y</a></body></html>"#;
    let got = extract("http://h/", html, "http://h/", false);
    assert_eq!(
        got,
        vec![b"http://h/x".to_vec(), b"http://h/y?a=2&b=1".to_vec()]
    );
}

#[test]
fn base_href_overrides_request_url() {
    let html = r#"<html><head><base href="http://h/dir/"></head><body><a href="p">p</a></body></html>"#;
    let got = extract("http://h/", html, "http://h/", false);
    assert_eq!(got, vec![b"http://h/dir/p".to_vec()]);
}

#[test]
fn invalid_base_href_falls_back_to_request_url() {
    let html = r#"<html><head><base href="mailto:x@y"></head><body><a href="p">p</a></body></html>"#;
    let got = extract("http://h/sub/", html, "http://h/", false);
    assert_eq!(got, vec![b"http://h/sub/p".to_vec()]);
}

#[test]
fn non_http_base_href_is_skipped_for_a_later_valid_one() {
    let html = r#"<html><head><base href="ftp://f/"><base href="http://h/d/"></head><body><a href="q">q</a></body></html>"#;
    let got = extract("http://h/", html, "http://h/", false);
    assert_eq!(got, vec![b"http://h/d/q".to_vec()]);
}

#[test]
fn out_of_scope_links_are_dropped() {
    let html = r#"<a href="http://other/p">o</a><a href="/in">i</a>"#;
    let got = extract("http://h/", html, "http://h/", false);
    assert_eq!(got, vec![b"http://h/in".to_vec()]);
}

#[test]
fn non_http_links_are_dropped() {
    let html = r#"<a href="mailto:a@b">m</a><a href="javascript:void(0)">j</a><a href="/ok">k</a>"#;
    let got = extract("http://h/", html, "http://h/", false);
    assert_eq!(got, vec![b"http://h/ok".to_vec()]);
}

#[test]
fn unresolvable_links_are_dropped() {
    let html = r#"<a href="http://[bad">b</a><a href="/fine">f</a>"#;
    let got = extract("http://h/", html, "http://h/", false);
    assert_eq!(got, vec![b"http://h/fine".to_vec()]);
}

#[test]
fn strip_option_removes_queries_in_extraction() {
    let html = r#"<a href="/p?a=1&b=2#x">p</a>"#;
    let got = extract("http://h/", html, "http://h/", true);
    assert_eq!(got, vec![b"http://h/p".to_vec()]);
}

#[test]
fn duplicates_are_kept_in_extraction_order() {
    let html = r#"<a href="/p">1</a><a href="/p">2</a>"#;
    let got = extract("http://h/", html, "http://h/", false);
    assert_eq!(got, vec![b"http://h/p".to_vec(), b"http://h/p".to_vec()]);
}

#[test]
fn malformed_html_is_tolerated() {
    let html = "<html><a href='/x'<b>broken";
    let got = extract("http://h/", html, "http://h/", false);
    assert_eq!(got, vec![b"http://h/x".to_vec()]);
}

#[test]
fn page_without_links_yields_nothing() {
    let got = extract("http://h/", "<html></html>", "http://h/", false);
    assert!(got.is_empty());
}
