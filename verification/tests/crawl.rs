use sitemap_generator::urls::{serialize, SiteUrl};
use sitemap_generator::{
    analyze_graph, redirect_decision, CrawlError, Options, PageEntry, PermitCounter,
    RedirectAction, Sites, Validator,
};

fn parse(s: &str) -> SiteUrl {
    SiteUrl::parse(s).expect("URL should parse")
}

fn ser(s: &str) -> Vec<u8> {
    serialize(&parse(s))
}

fn opts(max_depth: usize) -> Options {
    Options::new(4, false, max_depth, false)
}

fn page(key: &str, links: Vec<SiteUrl>) -> (Vec<u8>, PageEntry) {
    (ser(key), PageEntry::Page { links })
}

fn redirect(key: &str, status: u16, location: &str) -> (Vec<u8>, PageEntry) {
    (ser(key), PageEntry::Redirect { status, location: parse(location) })
}

#[test]
fn single_page_no_links() {
    let seeds = vec![parse("http://h/")];
    let table = vec![page("http://h/", vec![])];
    let v = Validator::new(&vec![parse("http://h/")]);
    let out = analyze_graph(&seeds, &table, &v, &opts(50));
    assert_eq!(out.sites, vec![ser("http://h/")]);
    assert!(out.errors.is_empty());
    assert!(out.removed.is_empty());
    assert_eq!(out.fetches, 1);
}

#[test]
fn two_pages_mutual_links() {
    let seeds = vec![parse("http://h/a")];
    let table = vec![
        page("http://h/a", vec![parse("http://h/b")]),
        page("http://h/b", vec![parse("http://h/a")]),
    ];
    let v = Validator::new(&vec![parse("http://h/")]);
    let out = analyze_graph(&seeds, &table, &v, &opts(50));
    let mut sites = out.sites.clone();
    sites.sort();
    assert_eq!(sites, vec![ser("http://h/a"), ser("http://h/b")]);
    assert_eq!(out.fetches, 2);
    assert!(out.errors.is_empty());
}

#[test]
fn permanent_move_relocates_membership() {
    let seeds = vec![parse("http://h/old")];
    let table = vec![
        redirect("http://h/old", 301, "http://h/new"),
        page("http://h/new", vec![]),
    ];
    let v = Validator::new(&vec![parse("http://h/")]);
    let out = analyze_graph(&seeds, &table, &v, &opts(50));
    assert_eq!(out.sites, vec![ser("http://h/new")]);
    assert!(!out.sites.contains(&ser("http://h/old")));
    assert_eq!(out.removed, vec![ser("http://h/old")]);
    assert!(out.errors.is_empty());
}

#[test]
fn out_of_scope_redirect_aborts_chain() {
    let seeds = vec![parse("http://h/s")];
    let table = vec![redirect("http://h/s", 302, "http://other/")];
    let v = Validator::new(&vec![parse("http://h/")]);
    let out = analyze_graph(&seeds, &table, &v, &opts(50));
    assert_eq!(out.sites, vec![ser("http://h/s")]);
    assert!(out.removed.is_empty());
    assert_eq!(out.errors.len(), 1);
    assert!(matches!(&out.errors[0], CrawlError::OutOfScopeRedirect { previous, target }
        if *previous == ser("http://h/s") && *target == ser("http://other/")));
}

#[test]
fn depth_bound_stops_expansion() {
    let seeds = vec![parse("http://h/")];
    let table = vec![
        page("http://h/", vec![parse("http://h/1")]),
        page("http://h/1", vec![parse("http://h/2")]),
        page("http://h/2", vec![parse("http://h/3")]),
        page("http://h/3", vec![]),
    ];
    let v = Validator::new(&vec![parse("http://h/")]);
    let out = analyze_graph(&seeds, &table, &v, &opts(2));
    assert_eq!(
        out.sites,
        vec![ser("http://h/"), ser("http://h/1"), ser("http://h/2")]
    );
    assert!(!out.sites.contains(&ser("http://h/3")));
    assert_eq!(out.fetches, 2);
}

#[test]
fn depth_zero_admits_seeds_without_fetching() {
    let seeds = vec![parse("http://h/")];
    let table = vec![page("http://h/", vec![parse("http://h/1")])];
    let v = Validator::new(&vec![parse("http://h/")]);
    let out = analyze_graph(&seeds, &table, &v, &opts(0));
    assert_eq!(out.sites, vec![ser("http://h/")]);
    assert_eq!(out.fetches, 0);
}

#[test]
fn query_stripping_dedups_variants() {
    let seeds = vec![parse("http://h/")];
    let table = vec![page(
        "http://h/",
        vec![parse("http://h/p?a=1&b=2#x"), parse("http://h/p?b=2&a=1")],
    )];
    let v = Validator::new(&vec![parse("http://h/")]);
    let options = Options::new(4, true, 50, false);
    let out = analyze_graph(&seeds, &table, &v, &options);
    let mut sites = out.sites.clone();
    sites.sort();
    assert_eq!(sites, vec![ser("http://h/"), ser("http://h/p")]);
}

#[test]
fn single_permit_still_progresses() {
    let seeds = vec![parse("http://h/a")];
    let table = vec![
        page("http://h/a", vec![parse("http://h/b")]),
        page("http://h/b", vec![]),
    ];
    let v = Validator::new(&vec![parse("http://h/")]);
    let options = Options::new(1, false, 50, false);
    let out = analyze_graph(&seeds, &table, &v, &options);
    let mut sites = out.sites.clone();
    sites.sort();
    assert_eq!(sites, vec![ser("http://h/a"), ser("http://h/b")]);
}

#[test]
fn missing_page_is_a_fetch_error_but_stays_visited() {
    let seeds = vec![parse("http://h/gone")];
    let table: Vec<(Vec<u8>, PageEntry)> = vec![];
    let v = Validator::new(&vec![parse("http://h/")]);
    let out = analyze_graph(&seeds, &table, &v, &opts(50));
    assert_eq!(out.sites, vec![ser("http://h/gone")]);
    assert_eq!(out.errors.len(), 1);
    assert!(matches!(&out.errors[0], CrawlError::FetchFailed { url } if *url == ser("http://h/gone")));
}

#[test]
fn long_redirect_chain_fails_after_ten_hops() {
    let names = [
        "http://h/0",
        "http://h/1",
        "http://h/2",
        "http://h/3",
        "http://h/4",
        "http://h/5",
        "http://h/6",
        "http://h/7",
        "http://h/8",
        "http://h/9",
        "http://h/10",
        "http://h/11",
    ];
    let mut table = Vec::new();
    for i in 0..11 {
        table.push(redirect(names[i], 302, names[i + 1]));
    }
    let seeds = vec![parse(names[0])];
    let v = Validator::new(&vec![parse("http://h/")]);
    let out = analyze_graph(&seeds, &table, &v, &opts(50));
    assert_eq!(out.errors.len(), 1);
    assert!(matches!(&out.errors[0], CrawlError::TooManyRedirects { url: _ }));
}

#[test]
fn redirect_to_visited_url_stops_quietly() {
    let seeds = vec![parse("http://h/b"), parse("http://h/a")];
    let table = vec![
        redirect("http://h/a", 302, "http://h/b"),
        page("http://h/b", vec![]),
    ];
    let v = Validator::new(&vec![parse("http://h/")]);
    let out = analyze_graph(&seeds, &table, &v, &opts(50));
    let mut sites = out.sites.clone();
    sites.sort();
    assert_eq!(sites, vec![ser("http://h/a"), ser("http://h/b")]);
    assert!(out.errors.is_empty());
}

#[test]
fn seeds_outside_scope_are_not_admitted() {
    let seeds = vec![parse("http://other/"), parse("http://h/")];
    let table = vec![page("http://h/", vec![])];
    let v = Validator::new(&vec![parse("http://h/")]);
    let out = analyze_graph(&seeds, &table, &v, &opts(50));
    assert_eq!(out.sites, vec![ser("http://h/")]);
}

#[test]
fn duplicate_seeds_admit_once() {
    let seeds = vec![parse("http://h/p?a=1&b=2"), parse("http://h/p?b=2&a=1")];
    let table = vec![page("http://h/p?a=1&b=2", vec![])];
    let v = Validator::new(&vec![parse("http://h/")]);
    let out = analyze_graph(&seeds, &table, &v, &opts(50));
    assert_eq!(out.sites, vec![ser("http://h/p?a=1&b=2")]);
    assert_eq!(out.fetches, 1);
}

#[test]
fn redirect_decision_permanent_move_relocates() {
    let mut sites = Sites::new();
    let v = Validator::new(&vec![parse("http://h/")]);
    let options = opts(50);
    assert!(sites.try_insert(ser("http://h/old")));
    let out = redirect_decision(
        &mut sites,
        &v,
        &options,
        &parse("http://h/new"),
        Some(&parse("http://h/old")),
        301,
    );
    assert!(matches!(out.action, RedirectAction::Follow));
    assert_eq!(out.removed, Some(ser("http://h/old")));
    assert_eq!(out.admitted, Some(ser("http://h/new")));
    assert!(!sites.contains(&ser("http://h/old")));
    assert!(sites.contains(&ser("http://h/new")));
}

#[test]
fn redirect_decision_permanent_move_out_of_scope_still_removes() {
    let mut sites = Sites::new();
    let v = Validator::new(&vec![parse("http://h/")]);
    let options = opts(50);
    assert!(sites.try_insert(ser("http://h/old")));
    let out = redirect_decision(
        &mut sites,
        &v,
        &options,
        &parse("http://other/"),
        Some(&parse("http://h/old")),
        301,
    );
    assert!(matches!(out.action, RedirectAction::Fail));
    assert_eq!(out.removed, Some(ser("http://h/old")));
    assert!(out.admitted.is_none());
    assert_eq!(sites.len(), 0);
}

#[test]
fn redirect_decision_temporary_hop_admits_fresh_target() {
    let mut sites = Sites::new();
    let v = Validator::new(&vec![parse("http://h/")]);
    let options = opts(50);
    let out = redirect_decision(
        &mut sites,
        &v,
        &options,
        &parse("http://h/t?b=1&a=1"),
        Some(&parse("http://h/s")),
        302,
    );
    assert!(matches!(out.action, RedirectAction::Follow));
    assert!(out.removed.is_none());
    assert_eq!(out.admitted, Some(b"http://h/t?a=1&b=1".to_vec()));
}

#[test]
fn redirect_decision_stops_on_visited_target() {
    let mut sites = Sites::new();
    let v = Validator::new(&vec![parse("http://h/")]);
    let options = opts(50);
    assert!(sites.try_insert(ser("http://h/t")));
    let out = redirect_decision(
        &mut sites,
        &v,
        &options,
        &parse("http://h/t"),
        Some(&parse("http://h/s")),
        302,
    );
    assert!(matches!(out.action, RedirectAction::Stop));
    assert!(out.removed.is_none());
    assert!(out.admitted.is_none());
}

#[test]
fn redirect_decision_rejects_out_of_scope_target() {
    let mut sites = Sites::new();
    let v = Validator::new(&vec![parse("http://h/")]);
    let options = opts(50);
    let out = redirect_decision(
        &mut sites,
        &v,
        &options,
        &parse("http://other/"),
        Some(&parse("http://h/s")),
        302,
    );
    assert!(matches!(out.action, RedirectAction::Fail));
    assert!(out.removed.is_none());
    assert_eq!(sites.len(), 0);
}

#[test]
fn visited_set_admits_each_url_once() {
    let mut sites = Sites::new();
    assert!(sites.try_insert(ser("http://h/")));
    assert!(!sites.try_insert(ser("http://h/")));
    assert_eq!(sites.len(), 1);
    assert!(sites.contains(&ser("http://h/")));
}

#[test]
fn visited_set_remove_then_reinsert() {
    let mut sites = Sites::new();
    assert!(sites.try_insert(ser("http://h/a")));
    assert!(sites.try_insert(ser("http://h/b")));
    assert!(sites.remove(&ser("http://h/a")));
    assert!(!sites.remove(&ser("http://h/a")));
    assert!(sites.try_insert(ser("http://h/a")));
    let drained = sites.drain();
    assert_eq!(drained, vec![ser("http://h/b"), ser("http://h/a")]);
}

#[test]
fn permits_never_exceed_bound() {
    let mut p = PermitCounter::new(2);
    assert!(p.acquire());
    assert!(p.acquire());
    assert!(!p.acquire());
    p.release();
    assert!(p.acquire());
    assert!(!p.acquire());
}
