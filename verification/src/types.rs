use vstd::prelude::*;
use crate::urls::{SiteUrl, UrlModel, serial_of};
use crate::urls::clone_bytes;
use crate::utils::{is_prefix_of, starts_with};

verus! {

pub open spec fn bytes_list_view(s: Seq<Vec<u8>>) -> Seq<Seq<u8>> {
    s.map_values(|b: Vec<u8>| b@)
}

pub open spec fn urls_view(s: Seq<SiteUrl>) -> Seq<UrlModel> {
    s.map_values(|u: SiteUrl| u@)
}

/// Decides whether a URL is inside the configured crawl scope: its
/// serialization must start with the serialization of at least one scope URL.
#[derive(Debug)]
pub struct Validator {
    pub base_urls: Vec<Vec<u8>>,
}

impl Validator {
    pub open spec fn spec_bases(&self) -> Seq<Seq<u8>> {
        bytes_list_view(self.base_urls@)
    }

    /// A byte string is in scope iff some scope URL's serialization is a
    /// prefix of it.
    pub open spec fn spec_valid_serial(&self, s: Seq<u8>) -> bool {
        exists|i: int| 0 <= i < self.spec_bases().len() && is_prefix_of(#[trigger] self.spec_bases()[i], s)
    }

    /// A URL is in scope iff its serialization is.
    pub open spec fn spec_is_valid(&self, m: UrlModel) -> bool {
        self.spec_valid_serial(serial_of(m))
    }

    /// Builds a validator from the scope URLs; each one is taken with its
    /// query and fragment stripped, that is, reduced to its stem.
    pub fn new(urls: &Vec<SiteUrl>) -> (r: Validator)
        ensures
            r.spec_bases() == urls@.map_values(|u: SiteUrl| u@.stem),
    {
        let mut base_urls: Vec<Vec<u8>> = Vec::new();
        let mut i: usize = 0;
        while i < urls.len()
            invariant
                i <= urls@.len(),
                bytes_list_view(base_urls@) == urls@.map_values(|u: SiteUrl| u@.stem).take(i as int),
            decreases urls@.len() - i,
        {
            let stem = clone_bytes(&urls[i].stem);
            base_urls.push(stem);
            proof {
                let all = urls@.map_values(|u: SiteUrl| u@.stem);
                assert(bytes_list_view(base_urls@) =~= all.take(i as int).push(all[i as int]));
                assert(all.take((i + 1) as int) =~= all.take(i as int).push(all[i as int]));
            }
            i += 1;
        }
        proof {
            let all = urls@.map_values(|u: SiteUrl| u@.stem);
            assert(all.take(urls@.len() as int) =~= all);
        }
        Validator { base_urls }
    }

    /// Scope test on an already-serialized URL.
    pub fn is_valid_serial(&self, ser: &Vec<u8>) -> (r: bool)
        ensures
            r == self.spec_valid_serial(ser@),
    {
        let mut i: usize = 0;
        while i < self.base_urls.len()
            invariant
                i <= self.base_urls@.len(),
                forall|j: int| 0 <= j < i ==> !is_prefix_of(#[trigger] self.spec_bases()[j], ser@),
            decreases self.base_urls@.len() - i,
        {
            if starts_with(ser, &self.base_urls[i]) {
                assert(is_prefix_of(self.spec_bases()[i as int], ser@));
                return true;
            }
            i += 1;
        }
        false
    }

    /// Scope test on a URL.
    pub fn is_valid(&self, url: &SiteUrl) -> (r: bool)
        ensures
            r == self.spec_is_valid(url@),
    {
        let ser = crate::urls::serialize(url);
        self.is_valid_serial(&ser)
    }
}

/// One crawl task: a canonical site URL together with the number of further
/// link hops its subtree is still allowed.
pub struct StartTaskInfo {
    pub site: SiteUrl,
    pub recursion: usize,
}

impl StartTaskInfo {
    /// The depth cap: a task with no hop budget left is dropped without a
    /// fetch.
    pub fn should_fetch(&self) -> (r: bool)
        ensures
            r == (self.recursion != 0),
    {
        self.recursion != 0
    }

    /// The child tasks spawned for the discovered links, each with one hop
    /// less of budget than their parent.
    pub fn child_tasks(&self, links: Vec<SiteUrl>) -> (r: Vec<StartTaskInfo>)
        requires
            self.recursion >= 1,
        ensures
            r@.len() == links@.len(),
            forall|i: int|
                0 <= i < r@.len() ==> #[trigger] r@[i].site == links@[i] && r@[i].recursion
                    == self.recursion - 1,
    {
        let ghost orig = links@;
        let mut rest = links;
        let mut r: Vec<StartTaskInfo> = Vec::new();
        while rest.len() > 0
            invariant
                self.recursion >= 1,
                r@.len() + rest@.len() == orig.len(),
                rest@ == orig.skip(r@.len() as int),
                forall|i: int|
                    0 <= i < r@.len() ==> #[trigger] r@[i].site == orig[i] && r@[i].recursion
                        == self.recursion - 1,
            decreases rest@.len(),
        {
            let ghost prev_rest = rest@;
            let site = rest.remove(0);
            assert(site == orig[r@.len() as int]);
            r.push(StartTaskInfo { site, recursion: self.recursion - 1 });
            proof {
                assert(rest@ =~= orig.skip(r@.len() as int));
            }
        }
        r
    }
}

/// Copies a list of URLs.
pub fn clone_urls(v: &Vec<SiteUrl>) -> (r: Vec<SiteUrl>)
    ensures
        urls_view(r@) == urls_view(v@),
{
    let mut r: Vec<SiteUrl> = Vec::new();
    let mut i: usize = 0;
    assert(urls_view(r@) =~= urls_view(v@).take(0));
    while i < v.len()
        invariant
            i <= v@.len(),
            urls_view(r@) == urls_view(v@).take(i as int),
        decreases v@.len() - i,
    {
        r.push(crate::urls::clone_url(&v[i]));
        proof {
            assert(urls_view(r@) =~= urls_view(r@.drop_last()).push(urls_view(v@)[i as int]));
            assert(urls_view(v@).take((i + 1) as int) =~= urls_view(v@).take(i as int).push(
                urls_view(v@)[i as int],
            ));
        }
        i += 1;
    }
    assert(urls_view(v@).take(v@.len() as int) =~= urls_view(v@));
    r
}

/// Reply to a worker asking whether a discovered site is to be processed.
#[derive(Clone, Debug)]
pub struct Response {
    pub to_process: bool,
}

impl Response {
    pub fn to_process(&self) -> (r: bool)
        ensures
            r == self.to_process,
    {
        self.to_process
    }
}

/// Depth bound: along a chain of tasks in which every parent still had hop
/// budget and every child's budget is one less than its parent's, a chain
/// that starts from the seed budget `max` holds at most `max + 1` tasks: the
/// seed plus at most `max` spawned workers.
pub proof fn lemma_depth_bound(ds: Seq<int>, max: int)
    requires
        ds.len() > 0,
        max >= 0,
        ds[0] == max,
        forall|i: int| 0 <= i < ds.len() - 1 ==> #[trigger] ds[i + 1] == ds[i] - 1,
        forall|i: int| 0 <= i < ds.len() - 1 ==> #[trigger] ds[i] >= 1,
    ensures
        ds.len() <= max + 1,
{
    assert forall|j: int| 0 <= j < ds.len() implies #[trigger] ds[j] == max - j by {
        lemma_chain_value(ds, max, j);
    }
    if ds.len() > max + 1 {
        let last_parent = ds.len() - 2;
        assert(ds[last_parent] >= 1);
        assert(ds[last_parent] == max - last_parent);
    }
}

proof fn lemma_chain_value(ds: Seq<int>, max: int, j: int)
    requires
        0 <= j < ds.len(),
        ds[0] == max,
        forall|i: int| 0 <= i < ds.len() - 1 ==> #[trigger] ds[i + 1] == ds[i] - 1,
    ensures
        ds[j] == max - j,
    decreases j,
{
    if j > 0 {
        lemma_chain_value(ds, max, j - 1);
        assert(ds[(j - 1) + 1] == ds[j - 1] - 1);
    }
}

} // verus!
