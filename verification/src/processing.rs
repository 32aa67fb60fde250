use vstd::prelude::*;
use crate::options::Options;
use crate::types::{bytes_list_view, urls_view, Validator};
use crate::urls::{
    canon_model, canonicalize, joined_model, parsed_model, serial_of, serialize, SiteUrl, UrlModel,
};
use crate::utils::is_http;

verus! {

/// The `href` attribute of every `head > base` element of the document, in
/// document order, as `scraper` parses it.
pub uninterp spec fn html_base_hrefs(html: Seq<u8>) -> Seq<Seq<u8>>;

/// The `href` attribute of every `a` element of the document, in document
/// order, as `scraper` parses it.
pub uninterp spec fn html_link_hrefs(html: Seq<u8>) -> Seq<Seq<u8>>;

/// Relies on `scraper::Html::parse_document` and `scraper::Selector`:
/// collects the `href` attribute of every `head > base` element.
#[verifier::external_body]
fn select_base_hrefs(html: &Vec<u8>) -> (r: Vec<Vec<u8>>)
    ensures
        bytes_list_view(r@) == html_base_hrefs(html@),
{
    let text = String::from_utf8_lossy(html.as_slice());
    let doc = scraper::Html::parse_document(&text);
    let sel = scraper::Selector::parse("head > base").unwrap();
    doc.select(&sel)
        .filter_map(|element| element.value().attr("href"))
        .map(|href| href.as_bytes().to_vec())
        .collect()
}

/// Relies on `scraper::Html::parse_document` and `scraper::Selector`:
/// collects the `href` attribute of every `a` element.
#[verifier::external_body]
fn select_link_hrefs(html: &Vec<u8>) -> (r: Vec<Vec<u8>>)
    ensures
        bytes_list_view(r@) == html_link_hrefs(html@),
{
    let text = String::from_utf8_lossy(html.as_slice());
    let doc = scraper::Html::parse_document(&text);
    let sel = scraper::Selector::parse("a").unwrap();
    doc.select(&sel)
        .filter_map(|element| element.value().attr("href"))
        .map(|href| href.as_bytes().to_vec())
        .collect()
}

/// The effective base for resolving the page's links: the first base href
/// that parses as an absolute, base-capable `http(s)` URL, in its default
/// canonical form; otherwise the request URL itself.
pub open spec fn spec_effective_base(site: UrlModel, hrefs: Seq<Seq<u8>>) -> UrlModel
    decreases hrefs.len(),
{
    if hrefs.len() == 0 {
        site
    } else {
        match parsed_model(hrefs[0]) {
            Option::Some(m) => if is_http(m) {
                canon_model(m, false)
            } else {
                spec_effective_base(site, hrefs.drop_first())
            },
            Option::None => spec_effective_base(site, hrefs.drop_first()),
        }
    }
}

fn effective_base(site: &SiteUrl, hrefs: &Vec<Vec<u8>>) -> (r: SiteUrl)
    ensures
        r@ == spec_effective_base(site@, bytes_list_view(hrefs@)),
{
    let ghost all = bytes_list_view(hrefs@);
    let mut i: usize = 0;
    assert(all.skip(0) =~= all);
    while i < hrefs.len()
        invariant
            i <= all.len(),
            all == bytes_list_view(hrefs@),
            spec_effective_base(site@, all) == spec_effective_base(site@, all.skip(i as int)),
        decreases all.len() - i,
    {
        let ghost rest = all.skip(i as int);
        assert(all[i as int] == hrefs@[i as int]@);
        assert(rest[0] == all[i as int]);
        assert(rest.drop_first() =~= all.skip(i as int + 1));
        match SiteUrl::parse_bytes(&hrefs[i]) {
            Option::Some(u) => {
                if crate::utils::filter_http(&u) {
                    let c = canonicalize(u, false);
                    return c;
                }
            },
            Option::None => {},
        }
        i += 1;
    }
    assert(all.skip(i as int).len() == 0);
    crate::urls::clone_url(site)
}

/// What one discovered link becomes: kept only if its scheme is `http(s)`;
/// then canonicalized (with the query dropped when the option says so) and
/// kept only if in scope.
pub open spec fn spec_process_link(m: UrlModel, v: &Validator, strip: bool) -> Option<UrlModel> {
    if is_http(m) {
        let c = canon_model(m, strip);
        if v.spec_is_valid(c) {
            Option::Some(c)
        } else {
            Option::None
        }
    } else {
        Option::None
    }
}

/// The in-scope canonical candidates among a list of resolved links, in
/// order, duplicates kept.
pub open spec fn spec_process_links(ls: Seq<UrlModel>, v: &Validator, strip: bool) -> Seq<UrlModel>
    decreases ls.len(),
{
    if ls.len() == 0 {
        Seq::empty()
    } else {
        let rest = spec_process_links(ls.drop_first(), v, strip);
        match spec_process_link(ls[0], v, strip) {
            Option::Some(c) => seq![c] + rest,
            Option::None => rest,
        }
    }
}

/// Filters and canonicalizes discovered links, as `spec_process_links` says.
pub fn process_links(links: Vec<SiteUrl>, validator: &Validator, strip: bool) -> (r: Vec<SiteUrl>)
    ensures
        urls_view(r@) == spec_process_links(urls_view(links@), validator, strip),
{
    let ghost all = urls_view(links@);
    let mut rest = links;
    let mut r: Vec<SiteUrl> = Vec::new();
    proof {
        assert(urls_view(r@) =~= Seq::<UrlModel>::empty());
        assert(urls_view(rest@) =~= all);
        assert(urls_view(r@) + spec_process_links(all, validator, strip) =~= spec_process_links(
            all,
            validator,
            strip,
        ));
    }
    while rest.len() > 0
        invariant
            spec_process_links(all, validator, strip) == urls_view(r@) + spec_process_links(
                urls_view(rest@),
                validator,
                strip,
            ),
        decreases rest@.len(),
    {
        let ghost rv = urls_view(rest@);
        let link = rest.remove(0);
        proof {
            assert(rv[0] == link@);
            assert(urls_view(rest@) =~= rv.drop_first());
        }
        if crate::utils::filter_http(&link) {
            let c = canonicalize(link, strip);
            if validator.is_valid(&c) {
                r.push(c);
                proof {
                    assert(urls_view(r@) =~= urls_view(r@.drop_last()) + seq![c@]);
                    assert(urls_view(r@.drop_last()) + (seq![c@] + spec_process_links(
                        rv.drop_first(),
                        validator,
                        strip,
                    )) =~= urls_view(r@) + spec_process_links(rv.drop_first(), validator, strip));
                }
            }
        }
    }
    assert(urls_view(rest@) =~= Seq::<UrlModel>::empty());
    assert(urls_view(r@) + Seq::<UrlModel>::empty() =~= urls_view(r@));
    r
}

/// The models of the links that resolve against the base serialized as
/// `base_ser`, in order.
pub open spec fn spec_join_all(base_ser: Seq<u8>, hrefs: Seq<Seq<u8>>) -> Seq<UrlModel>
    decreases hrefs.len(),
{
    if hrefs.len() == 0 {
        Seq::empty()
    } else {
        let rest = spec_join_all(base_ser, hrefs.drop_first());
        match joined_model(base_ser, hrefs[0]) {
            Option::Some(m) => seq![m] + rest,
            Option::None => rest,
        }
    }
}

fn join_all(base_ser: &Vec<u8>, hrefs: &Vec<Vec<u8>>) -> (r: Vec<SiteUrl>)
    ensures
        urls_view(r@) == spec_join_all(base_ser@, bytes_list_view(hrefs@)),
{
    let ghost all = bytes_list_view(hrefs@);
    let mut r: Vec<SiteUrl> = Vec::new();
    let mut i: usize = 0;
    proof {
        assert(urls_view(r@) =~= Seq::<UrlModel>::empty());
        assert(all.skip(0) =~= all);
        assert(urls_view(r@) + spec_join_all(base_ser@, all) =~= spec_join_all(base_ser@, all));
    }
    while i < hrefs.len()
        invariant
            i <= all.len(),
            all == bytes_list_view(hrefs@),
            spec_join_all(base_ser@, all) == urls_view(r@) + spec_join_all(
                base_ser@,
                all.skip(i as int),
            ),
        decreases all.len() - i,
    {
        let ghost rest = all.skip(i as int);
        proof {
            assert(all[i as int] == hrefs@[i as int]@);
            assert(rest[0] == all[i as int]);
            assert(rest.drop_first() =~= all.skip(i as int + 1));
        }
        match SiteUrl::join(base_ser, &hrefs[i]) {
            Option::Some(u) => {
                r.push(u);
                proof {
                    assert(urls_view(r@) =~= urls_view(r@.drop_last()) + seq![r@.last()@]);
                    assert(urls_view(r@.drop_last()) + (seq![r@.last()@] + spec_join_all(
                        base_ser@,
                        rest.drop_first(),
                    )) =~= urls_view(r@) + spec_join_all(base_ser@, rest.drop_first()));
                }
            },
            Option::None => {},
        }
        i += 1;
    }
    assert(all.skip(i as int).len() == 0);
    assert(urls_view(r@) + Seq::<UrlModel>::empty() =~= urls_view(r@));
    r
}

/// Everything the worker extracts from a fetched page: every `a` href
/// resolved against the effective base, kept if `http(s)`, canonicalized and
/// in scope.
pub open spec fn spec_analyze_html(
    site: UrlModel,
    html: Seq<u8>,
    v: &Validator,
    strip: bool,
) -> Seq<UrlModel> {
    let base = spec_effective_base(site, html_base_hrefs(html));
    let joined = spec_join_all(serial_of(base), html_link_hrefs(html));
    spec_process_links(joined, v, strip)
}

/// Parses a fetched page and produces its in-scope canonical links: the
/// `<head><base>` rule picks the base, each `<a href>` is resolved against
/// it, and the candidates run through scheme filter, canonicalization and
/// scope validation.
pub fn analyze_html(site: &SiteUrl, html: &Vec<u8>, validator: &Validator, options: &Options) -> (r:
    Vec<SiteUrl>)
    ensures
        urls_view(r@) == spec_analyze_html(
            site@,
            html@,
            validator,
            options.spec_remove_query_and_fragment(),
        ),
{
    let base_hrefs = select_base_hrefs(html);
    let base = effective_base(site, &base_hrefs);
    let base_ser = serialize(&base);
    let link_hrefs = select_link_hrefs(html);
    let joined = join_all(&base_ser, &link_hrefs);
    process_links(joined, validator, options.remove_query_and_fragment())
}

} // verus!
