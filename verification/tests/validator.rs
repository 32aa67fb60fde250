use sitemap_generator::urls::SiteUrl;
use sitemap_generator::{Options, OptionsBuilder, Response, StartTaskInfo, Validator};

fn parse(s: &str) -> SiteUrl {
    SiteUrl::parse(s).expect("URL should parse")
}

#[test]
fn validator_uses_string_prefix_rule() {
    let v = Validator::new(&vec![parse("https://example.com/docs/")]);
    assert!(v.is_valid(&parse("https://example.com/docs/intro")));
    assert!(!v.is_valid(&parse("https://example.com/blog/post")));
    assert!(!v.is_valid(&parse("https://other.com/docs/")));
}

#[test]
fn validator_strips_query_and_fragment_of_scope_urls() {
    let v = Validator::new(&vec![parse("http://h/a?x=1#f")]);
    assert!(v.is_valid(&parse("http://h/a")));
    assert!(v.is_valid(&parse("http://h/a/deeper")));
    assert!(!v.is_valid(&parse("http://h/b")));
}

#[test]
fn validator_accepts_any_matching_base() {
    let v = Validator::new(&vec![parse("http://a/"), parse("http://b/")]);
    assert!(v.is_valid(&parse("http://a/x")));
    assert!(v.is_valid(&parse("http://b/y")));
    assert!(!v.is_valid(&parse("http://c/z")));
}

#[test]
fn validator_with_no_bases_rejects_everything() {
    let v = Validator::new(&vec![]);
    assert!(!v.is_valid(&parse("http://h/")));
}

#[test]
fn should_fetch_respects_depth_cap() {
    let t0 = StartTaskInfo { site: parse("http://h/"), recursion: 0 };
    let t1 = StartTaskInfo { site: parse("http://h/"), recursion: 1 };
    assert!(!t0.should_fetch());
    assert!(t1.should_fetch());
}

#[test]
fn child_tasks_decrement_depth() {
    let t = StartTaskInfo { site: parse("http://h/"), recursion: 3 };
    let children = t.child_tasks(vec![parse("http://h/a"), parse("http://h/b")]);
    assert_eq!(children.len(), 2);
    for c in &children {
        assert_eq!(c.recursion, 2);
    }
}

#[test]
fn response_reports_to_process() {
    assert!(Response { to_process: true }.to_process());
    assert!(!Response { to_process: false }.to_process());
}

#[test]
fn options_builder_defaults() {
    let b = OptionsBuilder::new();
    assert!(b.max_task_count() >= 1);
    assert!(!b.remove_query_and_fragment());
    assert_eq!(b.max_recursion(), 50);
    assert!(!b.verbose());
}

#[test]
fn options_builder_setters_carry_into_build() {
    let o = Options::builder()
        .set_max_task_count(7)
        .set_remove_query_and_fragment(true)
        .set_max_recursion(3)
        .set_verbose(true)
        .build();
    assert_eq!(o.max_task_count(), 7);
    assert!(o.remove_query_and_fragment());
    assert_eq!(o.max_recursion(), 3);
    assert!(o.verbose());
}

#[test]
fn options_new_stores_all_fields() {
    let o = Options::new(2, true, 9, false);
    assert_eq!(o.max_task_count(), 2);
    assert!(o.remove_query_and_fragment());
    assert_eq!(o.max_recursion(), 9);
    assert!(!o.verbose());
}

#[test]
fn options_default_matches_builder_defaults() {
    let o = Options::default();
    assert!(o.max_task_count() >= 1);
    assert!(!o.remove_query_and_fragment());
    assert_eq!(o.max_recursion(), 50);
    assert!(!o.verbose());
}
