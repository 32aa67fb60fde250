use vstd::prelude::*;

pub mod options;
pub mod processing;
pub mod types;
pub mod urls;
pub mod utils;

pub use crate::options::{Options, OptionsBuilder};
pub use crate::types::{Response, StartTaskInfo, Validator};

use crate::types::{bytes_list_view, urls_view};
use crate::urls::{
    canon_model, canonicalize, clone_bytes, clone_url, opt_bytes_view, serial_of, serialize,
    SiteUrl, UrlModel,
};
use crate::utils::bytes_eq;

verus! {

/// The canonical serialization of a URL under the configured canonical form.
pub open spec fn canon_serial(m: UrlModel, strip: bool) -> Seq<u8> {
    serial_of(canon_model(m, strip))
}

/// The shared visited set: the canonical serializations of every URL admitted
/// so far, each at most once.
pub struct Sites {
    pub items: Vec<Vec<u8>>,
}

impl Sites {
    /// The admitted serializations in admission order.
    pub open spec fn list(&self) -> Seq<Seq<u8>> {
        bytes_list_view(self.items@)
    }

    /// The admitted serializations as a set.
    pub open spec fn as_set(&self) -> Set<Seq<u8>> {
        self.list().to_set()
    }

    /// Each serialization is held at most once.
    pub open spec fn wf(&self) -> bool {
        self.list().no_duplicates()
    }

    pub fn new() -> (r: Sites)
        ensures
            r.wf(),
            r.list() == Seq::<Seq<u8>>::empty(),
    {
        let r = Sites { items: Vec::new() };
        assert(r.list() =~= Seq::<Seq<u8>>::empty());
        r
    }

    pub fn len(&self) -> (n: usize)
        ensures
            n == self.list().len(),
    {
        self.items.len()
    }

    /// Membership test.
    pub fn contains(&self, url: &Vec<u8>) -> (r: bool)
        ensures
            r == self.as_set().contains(url@),
    {
        let mut i: usize = 0;
        while i < self.items.len()
            invariant
                i <= self.items@.len(),
                forall|j: int| 0 <= j < i ==> self.list()[j] != url@,
            decreases self.items@.len() - i,
        {
            if bytes_eq(&self.items[i], url) {
                assert(self.list()[i as int] == url@);
                assert(self.list().contains(url@));
                return true;
            }
            i += 1;
        }
        proof {
            if self.list().contains(url@) {
                let j = choose|j: int| 0 <= j < self.list().len() && self.list()[j] == url@;
                assert(self.list()[j] != url@);
            }
        }
        false
    }

    /// Atomically adds `url` and reports whether it was newly inserted;
    /// inserting an already-present serialization is a no-op that returns
    /// false.
    pub fn try_insert(&mut self, url: Vec<u8>) -> (r: bool)
        requires
            old(self).wf(),
        ensures
            final(self).wf(),
            r == !old(self).as_set().contains(url@),
            final(self).as_set() == old(self).as_set().insert(url@),
            r ==> final(self).list() == old(self).list().push(url@),
            !r ==> final(self).list() == old(self).list(),
    {
        if self.contains(&url) {
            proof {
                assert(self.as_set().insert(url@) =~= self.as_set());
            }
            false
        } else {
            let ghost before = self.list();
            self.items.push(url);
            proof {
                assert(self.list() =~= before.push(url@));
                assert forall|p: int, q: int|
                    0 <= p < self.list().len() && 0 <= q < self.list().len() && p != q implies
                    self.list()[p] != self.list()[q] by {
                    if p < before.len() && q < before.len() {
                    } else if q == before.len() {
                        if self.list()[p] == url@ {
                            assert(before.contains(url@));
                        }
                    } else {
                        if self.list()[q] == url@ {
                            assert(before.contains(url@));
                        }
                    }
                }
                assert forall|a: Seq<u8>| #[trigger] self.list().contains(a) implies
                    before.contains(a) || a == url@ by {
                    let j = choose|j: int|
                        0 <= j < self.list().len() && self.list()[j] == a;
                    if j < before.len() {
                        assert(before[j] == a);
                    }
                }
                assert forall|a: Seq<u8>| #[trigger] before.contains(a) implies
                    self.list().contains(a) by {
                    let j = choose|j: int| 0 <= j < before.len() && before[j] == a;
                    assert(self.list()[j] == a);
                }
                assert(self.list()[before.len() as int] == url@);
                assert(self.list().contains(url@));
                assert(self.as_set() =~= before.to_set().insert(url@));
            }
            true
        }
    }

    /// Unconditionally deletes `url`; used by the redirect policy on a
    /// permanent (301) move. Reports whether the serialization was present.
    pub fn remove(&mut self, url: &Vec<u8>) -> (r: bool)
        requires
            old(self).wf(),
        ensures
            final(self).wf(),
            r == old(self).as_set().contains(url@),
            final(self).as_set() == old(self).as_set().remove(url@),
    {
        let ghost before = self.list();
        let mut i: usize = 0;
        while i < self.items.len()
            invariant
                i <= self.items@.len(),
                self.list() == before,
                old(self).wf(),
                self == old(self),
                forall|j: int| 0 <= j < i ==> self.list()[j] != url@,
            decreases self.items@.len() - i,
        {
            if bytes_eq(&self.items[i], url) {
                assert(before[i as int] == url@);
                assert(before.contains(url@));
                self.items.remove(i);
                proof {
                    assert(self.list() =~= before.remove(i as int));
                    let after = self.list();
                    assert forall|p: int, q: int|
                        0 <= p < after.len() && 0 <= q < after.len() && p != q implies after[p]
                        != after[q] by {
                        let p0: int = if p < i { p } else { p + 1 };
                        let q0: int = if q < i { q } else { q + 1 };
                        assert(after[p] == before[p0] && after[q] == before[q0]);
                    }
                    assert forall|a: Seq<u8>| #[trigger] after.contains(a) implies
                        before.contains(a) && a != url@ by {
                        let j = choose|j: int| 0 <= j < after.len() && after[j] == a;
                        let j0: int = if j < i { j } else { j + 1 };
                        assert(before[j0] == a);
                        if a == url@ {
                            assert(before[j0] == before[i as int] && j0 != i);
                        }
                    }
                    assert forall|a: Seq<u8>| #[trigger] before.contains(a) && a != url@ implies
                        after.contains(a) by {
                        let j = choose|j: int| 0 <= j < before.len() && before[j] == a;
                        if j < i {
                            assert(after[j] == a);
                        } else {
                            assert(j != i);
                            assert(after[j - 1] == a);
                        }
                    }
                    assert(self.as_set() =~= before.to_set().remove(url@));
                }
                return true;
            }
            i += 1;
        }
        proof {
            if before.contains(url@) {
                let j = choose|j: int| 0 <= j < before.len() && before[j] == url@;
                assert(before[j] != url@);
            }
            assert(self.as_set().remove(url@) =~= self.as_set());
        }
        false
    }

    /// Consumes the set at shutdown and hands out its contents.
    pub fn drain(self) -> (r: Vec<Vec<u8>>)
        ensures
            bytes_list_view(r@) == self.list(),
    {
        self.items
    }
}

/// What the redirect policy tells the HTTP client to do with one hop.
pub enum RedirectAction {
    /// Follow the hop (subject to the client's own hop limit).
    Follow,
    /// Stop without an error: the target is already known.
    Stop,
    /// Abort the chain: the target is out of scope.
    Fail,
}

/// The full outcome of one redirect decision: the action, the serialization
/// removed by a permanent move (to report as a "removed" event), and the
/// serialization newly admitted (to report as a "visited" event).
pub struct RedirectOutcome {
    pub action: RedirectAction,
    pub removed: Option<Vec<u8>>,
    pub admitted: Option<Vec<u8>>,
}

/// The serialization a redirect hop removes: on a permanent (301) move, the
/// canonical form of the URL being left behind.
pub open spec fn spec_redirect_removed(prev: Option<UrlModel>, status: u16, strip: bool) -> Option<
    Seq<u8>,
> {
    if status == 301 {
        match prev {
            Option::Some(p) => Option::Some(canon_serial(p, strip)),
            Option::None => Option::None,
        }
    } else {
        Option::None
    }
}

pub open spec fn opt_model(o: Option<&SiteUrl>) -> Option<UrlModel> {
    match o {
        Option::Some(u) => Option::Some(u@),
        Option::None => Option::None,
    }
}

/// The redirect policy of the crawl: a permanent move first
/// deletes the URL being left behind; an out-of-scope target aborts the
/// chain; an in-scope target is followed exactly when it is newly admitted,
/// and a hop to an already-visited URL stops the chain without an error.
pub fn redirect_decision(
    sites: &mut Sites,
    validator: &Validator,
    options: &Options,
    attempt: &SiteUrl,
    previous: Option<&SiteUrl>,
    status: u16,
) -> (r: RedirectOutcome)
    requires
        old(sites).wf(),
    ensures
        final(sites).wf(),
        ({
            let strip = options.spec_remove_query_and_fragment();
            let att = canon_serial(attempt@, strip);
            let removed_ser = spec_redirect_removed(opt_model(previous), status, strip);
            let mid = match removed_ser {
                Option::Some(s) => old(sites).as_set().remove(s),
                Option::None => old(sites).as_set(),
            };
            &&& opt_bytes_view(r.removed) == removed_ser
            &&& if !validator.spec_is_valid(canon_model(attempt@, strip)) {
                r.action is Fail && final(sites).as_set() == mid && r.admitted is None
            } else if !mid.contains(att) {
                r.action is Follow && final(sites).as_set() == mid.insert(att) && opt_bytes_view(
                    r.admitted,
                ) == Option::Some(att)
            } else {
                r.action is Stop && final(sites).as_set() == mid && r.admitted is None
            }
        }),
{
    let strip = options.remove_query_and_fragment();
    let mut removed: Option<Vec<u8>> = Option::None;
    if status == 301 {
        match previous {
            Option::Some(p) => {
                let pser = serialize(&canonicalize(clone_url(p), strip));
                sites.remove(&pser);
                removed = Option::Some(pser);
            },
            Option::None => {},
        }
    }
    let catt = canonicalize(clone_url(attempt), strip);
    if !validator.is_valid(&catt) {
        RedirectOutcome { action: RedirectAction::Fail, removed, admitted: Option::None }
    } else {
        let aser = serialize(&catt);
        let keep = clone_bytes(&aser);
        if sites.try_insert(aser) {
            RedirectOutcome {
                action: RedirectAction::Follow,
                removed,
                admitted: Option::Some(keep),
            }
        } else {
            RedirectOutcome { action: RedirectAction::Stop, removed, admitted: Option::None }
        }
    }
}

/// What admitting one discovered URL does to the visited set: it is inserted,
/// and a worker is spawned for it, exactly when it is in scope and not yet
/// present.
pub open spec fn spec_accept(s: Set<Seq<u8>>, m: UrlModel, v: &Validator) -> (Set<Seq<u8>>, bool) {
    let ser = serial_of(m);
    if v.spec_is_valid(m) && !s.contains(ser) {
        (s.insert(ser), true)
    } else {
        (s, false)
    }
}

/// The receive-side admission gate of the task pump: one shared decision
/// point through which every discovered URL passes.
pub fn accept_task(sites: &mut Sites, validator: &Validator, task: &StartTaskInfo) -> (r: bool)
    requires
        old(sites).wf(),
    ensures
        final(sites).wf(),
        final(sites).as_set() == spec_accept(old(sites).as_set(), task.site@, validator).0,
        r == spec_accept(old(sites).as_set(), task.site@, validator).1,
        r ==> final(sites).list() == old(sites).list().push(serial_of(task.site@)),
        !r ==> final(sites).list() == old(sites).list(),
{
    if validator.is_valid(&task.site) {
        sites.try_insert(serialize(&task.site))
    } else {
        false
    }
}

/// The visited set admits each URL at most once: after an admission of a URL,
/// a second admission of the same URL never spawns a worker.
pub proof fn lemma_admit_at_most_once(s: Set<Seq<u8>>, m: UrlModel, v: &Validator)
    ensures
        !spec_accept(spec_accept(s, m, v).0, m, v).1,
{
}

/// Accounting for the fetch-concurrency bound: a bounded pool of permits, one
/// held per in-flight fetch.
pub struct PermitCounter {
    pub active: usize,
    pub max: usize,
}

impl PermitCounter {
    /// At no time are more permits held than the pool's bound.
    pub open spec fn wf(&self) -> bool {
        self.active <= self.max && self.max >= 1
    }

    pub fn new(max: usize) -> (r: PermitCounter)
        requires
            max >= 1,
        ensures
            r.wf(),
            r.active == 0,
            r.max == max,
    {
        PermitCounter { active: 0, max }
    }

    /// Takes a permit if one is free.
    pub fn acquire(&mut self) -> (r: bool)
        requires
            old(self).wf(),
        ensures
            final(self).wf(),
            r == (old(self).active < old(self).max),
            final(self).max == old(self).max,
            r ==> final(self).active == old(self).active + 1,
            !r ==> final(self).active == old(self).active,
    {
        if self.active < self.max {
            self.active = self.active + 1;
            true
        } else {
            false
        }
    }

    /// Returns a permit; done before CPU-bound parsing so fetch parallelism
    /// is not stalled.
    pub fn release(&mut self)
        requires
            old(self).wf(),
            old(self).active >= 1,
        ensures
            final(self).wf(),
            final(self).max == old(self).max,
            final(self).active == old(self).active - 1,
    {
        self.active = self.active - 1;
    }
}

/// What the seed phase does, seed by seed: each seed is canonicalized and,
/// when in scope and new, admitted with the full hop budget.
pub open spec fn spec_seed(
    s0: Set<Seq<u8>>,
    seeds: Seq<UrlModel>,
    v: &Validator,
    strip: bool,
) -> (Set<Seq<u8>>, Seq<UrlModel>)
    decreases seeds.len(),
{
    if seeds.len() == 0 {
        (s0, Seq::empty())
    } else {
        let c = canon_model(seeds[0], strip);
        let ser = serial_of(c);
        if v.spec_is_valid(c) && !s0.contains(ser) {
            let rest = spec_seed(s0.insert(ser), seeds.drop_first(), v, strip);
            (rest.0, seq![c] + rest.1)
        } else {
            spec_seed(s0, seeds.drop_first(), v, strip)
        }
    }
}

pub open spec fn tasks_sites(ts: Seq<StartTaskInfo>) -> Seq<UrlModel> {
    ts.map_values(|t: StartTaskInfo| t.site@)
}

/// The seed phase only adds to the visited set.
pub proof fn lemma_spec_seed_monotone(
    s0: Set<Seq<u8>>,
    seeds: Seq<UrlModel>,
    v: &Validator,
    strip: bool,
)
    ensures
        s0.subset_of(spec_seed(s0, seeds, v, strip).0),
    decreases seeds.len(),
{
    if seeds.len() > 0 {
        let c = canon_model(seeds[0], strip);
        let ser = serial_of(c);
        if v.spec_is_valid(c) && !s0.contains(ser) {
            lemma_spec_seed_monotone(s0.insert(ser), seeds.drop_first(), v, strip);
        } else {
            lemma_spec_seed_monotone(s0, seeds.drop_first(), v, strip);
        }
    }
}

/// Every in-scope seed ends up in the visited set after the seed phase.
pub proof fn lemma_spec_seed_covers(
    s0: Set<Seq<u8>>,
    seeds: Seq<UrlModel>,
    v: &Validator,
    strip: bool,
)
    ensures
        forall|i: int|
            0 <= i < seeds.len() && v.spec_is_valid(canon_model(#[trigger] seeds[i], strip))
                ==> spec_seed(s0, seeds, v, strip).0.contains(canon_serial(seeds[i], strip)),
    decreases seeds.len(),
{
    if seeds.len() > 0 {
        let c = canon_model(seeds[0], strip);
        let ser = serial_of(c);
        let rest = seeds.drop_first();
        if v.spec_is_valid(c) && !s0.contains(ser) {
            lemma_spec_seed_covers(s0.insert(ser), rest, v, strip);
            lemma_spec_seed_monotone(s0.insert(ser), rest, v, strip);
        } else {
            lemma_spec_seed_covers(s0, rest, v, strip);
            if v.spec_is_valid(c) {
                lemma_spec_seed_monotone(s0, rest, v, strip);
            }
        }
        assert forall|i: int|
            0 <= i < seeds.len() && v.spec_is_valid(canon_model(#[trigger] seeds[i], strip))
                implies spec_seed(s0, seeds, v, strip).0.contains(
            canon_serial(seeds[i], strip),
        ) by {
            if i > 0 {
                assert(rest[i - 1] == seeds[i]);
            }
        }
    }
}

/// The seed phase admits only in-scope serializations.
pub proof fn lemma_spec_seed_valid(
    s0: Set<Seq<u8>>,
    seeds: Seq<UrlModel>,
    v: &Validator,
    strip: bool,
)
    requires
        forall|x: Seq<u8>| s0.contains(x) ==> v.spec_valid_serial(x),
    ensures
        forall|x: Seq<u8>| spec_seed(s0, seeds, v, strip).0.contains(x) ==> v.spec_valid_serial(x),
    decreases seeds.len(),
{
    if seeds.len() > 0 {
        let c = canon_model(seeds[0], strip);
        let ser = serial_of(c);
        if v.spec_is_valid(c) && !s0.contains(ser) {
            lemma_spec_seed_valid(s0.insert(ser), seeds.drop_first(), v, strip);
        } else {
            lemma_spec_seed_valid(s0, seeds.drop_first(), v, strip);
        }
    }
}

/// The seed phase of the pump: canonicalize each seed, admit the in-scope
/// new ones, and hand back one root task per admission, each with the full
/// hop budget.
pub fn seed_tasks(
    sites: &mut Sites,
    validator: &Validator,
    options: &Options,
    seeds: &Vec<SiteUrl>,
) -> (r: Vec<StartTaskInfo>)
    requires
        old(sites).wf(),
    ensures
        final(sites).wf(),
        final(sites).as_set() == spec_seed(
            old(sites).as_set(),
            urls_view(seeds@),
            validator,
            options.spec_remove_query_and_fragment(),
        ).0,
        tasks_sites(r@) == spec_seed(
            old(sites).as_set(),
            urls_view(seeds@),
            validator,
            options.spec_remove_query_and_fragment(),
        ).1,
        forall|i: int| 0 <= i < r@.len() ==> #[trigger] r@[i].recursion == options.spec_max_recursion(),
{
    let ghost all = urls_view(seeds@);
    let ghost s_orig = sites.as_set();
    let strip = options.remove_query_and_fragment();
    let mut r: Vec<StartTaskInfo> = Vec::new();
    let mut i: usize = 0;
    proof {
        assert(all.skip(0) =~= all);
        assert(tasks_sites(r@) =~= Seq::<UrlModel>::empty());
        assert(tasks_sites(r@) + spec_seed(s_orig, all, validator, strip).1 =~= spec_seed(
            s_orig,
            all,
            validator,
            strip,
        ).1);
    }
    while i < seeds.len()
        invariant
            i <= all.len(),
            all == urls_view(seeds@),
            strip == options.spec_remove_query_and_fragment(),
            sites.wf(),
            spec_seed(s_orig, all, validator, strip).0 == spec_seed(
                sites.as_set(),
                all.skip(i as int),
                validator,
                strip,
            ).0,
            spec_seed(s_orig, all, validator, strip).1 == tasks_sites(r@) + spec_seed(
                sites.as_set(),
                all.skip(i as int),
                validator,
                strip,
            ).1,
            forall|j: int|
                0 <= j < r@.len() ==> #[trigger] r@[j].recursion == options.spec_max_recursion(),
        decreases all.len() - i,
    {
        let ghost restv = all.skip(i as int);
        let ghost s_cur = sites.as_set();
        proof {
            assert(restv[0] == all[i as int]);
            assert(all[i as int] == seeds@[i as int]@);
            assert(restv.drop_first() =~= all.skip(i as int + 1));
        }
        let c = canonicalize(clone_url(&seeds[i]), strip);
        let mut admitted = false;
        if validator.is_valid(&c) {
            admitted = sites.try_insert(serialize(&c));
        }
        if admitted {
            r.push(StartTaskInfo { site: c, recursion: options.max_recursion() });
            proof {
                assert(tasks_sites(r@) =~= tasks_sites(r@.drop_last()) + seq![
                    canon_model(restv[0], strip),
                ]);
                assert(tasks_sites(r@.drop_last()) + (seq![canon_model(restv[0], strip)]
                    + spec_seed(sites.as_set(), restv.drop_first(), validator, strip).1)
                    =~= tasks_sites(r@) + spec_seed(
                    sites.as_set(),
                    restv.drop_first(),
                    validator,
                    strip,
                ).1);
            }
        } else {
            proof {
                assert(sites.as_set() =~= s_cur);
            }
        }
        i += 1;
    }
    proof {
        assert(all.skip(i as int).len() == 0);
        assert(spec_seed(sites.as_set(), all.skip(i as int), validator, strip).0 == sites.as_set());
        assert(tasks_sites(r@) + Seq::<UrlModel>::empty() =~= tasks_sites(r@));
    }
    r
}

/// What a GET of a URL returns in a fixed link graph: a page with its
/// (already resolved) links, or a redirect.
pub enum PageEntry {
    Page { links: Vec<SiteUrl> },
    Redirect { status: u16, location: SiteUrl },
}

/// One per-URL error of a crawl, with the inputs it came from.
pub enum CrawlError {
    /// The fetch of `url` failed: the graph has no entry for it.
    FetchFailed { url: Vec<u8> },
    /// A hop redirected from `previous` to the out-of-scope `target`.
    OutOfScopeRedirect { previous: Vec<u8>, target: Vec<u8> },
    /// A chain exceeded the ten-hop limit at `url`.
    TooManyRedirects { url: Vec<u8> },
}

/// The result of a crawl over a fixed link graph: the visited set in
/// admission order, the serializations deleted by permanent moves, the
/// per-URL errors, and how many GETs were made.
pub struct CrawlOutcome {
    pub sites: Vec<Vec<u8>>,
    pub removed: Vec<Vec<u8>>,
    pub errors: Vec<CrawlError>,
    pub fetches: usize,
}

/// First match of `key` in the graph.
pub open spec fn spec_lookup(t: Seq<(Vec<u8>, PageEntry)>, key: Seq<u8>) -> Option<PageEntry>
    decreases t.len(),
{
    if t.len() == 0 {
        Option::None
    } else if t[0].0@ == key {
        Option::Some(t[0].1)
    } else {
        spec_lookup(t.drop_first(), key)
    }
}

fn lookup<'a>(table: &'a Vec<(Vec<u8>, PageEntry)>, key: &Vec<u8>) -> (r: Option<&'a PageEntry>)
    ensures
        match r {
            Option::Some(e) => spec_lookup(table@, key@) == Option::Some(*e),
            Option::None => spec_lookup(table@, key@) is None,
        },
{
    let mut i: usize = 0;
    assert(table@.skip(0) =~= table@);
    while i < table.len()
        invariant
            i <= table@.len(),
            spec_lookup(table@, key@) == spec_lookup(table@.skip(i as int), key@),
        decreases table@.len() - i,
    {
        let ghost rest = table@.skip(i as int);
        proof {
            assert(rest[0] == table@[i as int]);
            assert(rest.drop_first() =~= table@.skip(i as int + 1));
        }
        if bytes_eq(&table[i].0, key) {
            return Option::Some(&table[i].1);
        }
        i += 1;
    }
    assert(table@.skip(i as int).len() == 0);
    Option::None
}

/// The number of links a graph entry can hand to the crawl.
pub open spec fn entry_width(e: PageEntry) -> nat {
    match e {
        PageEntry::Page { links } => links@.len(),
        PageEntry::Redirect { .. } => 0,
    }
}

/// The widest entry of the graph.
pub open spec fn max_width(t: Seq<(Vec<u8>, PageEntry)>) -> nat
    decreases t.len(),
{
    if t.len() == 0 {
        0
    } else {
        let rest = max_width(t.drop_first());
        if entry_width(t[0].1) > rest {
            entry_width(t[0].1)
        } else {
            rest
        }
    }
}

proof fn lemma_lookup_width(t: Seq<(Vec<u8>, PageEntry)>, key: Seq<u8>)
    ensures
        match spec_lookup(t, key) {
            Option::Some(e) => entry_width(e) <= max_width(t),
            Option::None => true,
        },
    decreases t.len(),
{
    if t.len() > 0 && t[0].0@ != key {
        lemma_lookup_width(t.drop_first(), key);
    }
}

/// `b` to the power `e`.
pub open spec fn pow_nat(b: nat, e: nat) -> nat
    decreases e,
{
    if e == 0 {
        1
    } else {
        b * pow_nat(b, (e - 1) as nat)
    }
}

proof fn lemma_pow_nat_pos(b: nat, e: nat)
    requires
        b >= 1,
    ensures
        pow_nat(b, e) >= 1,
    decreases e,
{
    if e > 0 {
        lemma_pow_nat_pos(b, (e - 1) as nat);
        assert(b * pow_nat(b, (e - 1) as nat) >= 1) by (nonlinear_arith)
            requires
                b >= 1,
                pow_nat(b, (e - 1) as nat) >= 1,
        ;
    }
}

/// The termination measure of the pump: each pending task weighs
/// exponentially in its remaining hop budget, so spawning the children of a
/// task — at most the graph's width many, each one hop shallower — always
/// shrinks the total. This is what makes the crawl terminate on every finite
/// graph.
pub open spec fn frontier_measure(ts: Seq<StartTaskInfo>, b: nat) -> nat
    decreases ts.len(),
{
    if ts.len() == 0 {
        0
    } else {
        pow_nat(b, ts[0].recursion as nat) + frontier_measure(ts.drop_first(), b)
    }
}

proof fn lemma_frontier_measure_snoc(ts: Seq<StartTaskInfo>, t: StartTaskInfo, b: nat)
    ensures
        frontier_measure(ts.push(t), b) == frontier_measure(ts, b) + pow_nat(
            b,
            t.recursion as nat,
        ),
    decreases ts.len(),
{
    if ts.len() == 0 {
        assert(ts.push(t)[0] == t);
        assert(ts.push(t).drop_first() =~= Seq::<StartTaskInfo>::empty());
        assert(frontier_measure(ts.push(t), b) == pow_nat(b, t.recursion as nat)
            + frontier_measure(Seq::<StartTaskInfo>::empty(), b));
    } else {
        assert(ts.push(t)[0] == ts[0]);
        assert(ts.push(t).drop_first() =~= ts.drop_first().push(t));
        lemma_frontier_measure_snoc(ts.drop_first(), t, b);
        assert(frontier_measure(ts.push(t), b) == pow_nat(b, ts[0].recursion as nat)
            + frontier_measure(ts.drop_first().push(t), b));
        assert(frontier_measure(ts, b) == pow_nat(b, ts[0].recursion as nat) + frontier_measure(
            ts.drop_first(),
            b,
        ));
    }
}

proof fn lemma_process_links_len(ls: Seq<UrlModel>, v: &Validator, strip: bool)
    ensures
        crate::processing::spec_process_links(ls, v, strip).len() <= ls.len(),
    decreases ls.len(),
{
    if ls.len() > 0 {
        lemma_process_links_len(ls.drop_first(), v, strip);
    }
}

/// Scope closure of a visited set: everything in it is in scope.
pub open spec fn all_in_scope(s: Set<Seq<u8>>, v: &Validator) -> bool {
    forall|x: Seq<u8>| #[trigger] s.contains(x) ==> v.spec_valid_serial(x)
}

/// Seed coverage: every in-scope seed is either still in the visited set or
/// was deleted by a permanent move (and recorded as removed).
pub open spec fn seeds_covered(
    seeds: Seq<UrlModel>,
    strip: bool,
    v: &Validator,
    s: Set<Seq<u8>>,
    removed: Seq<Seq<u8>>,
) -> bool {
    forall|i: int|
        0 <= i < seeds.len() && v.spec_is_valid(canon_model(#[trigger] seeds[i], strip)) ==> s
            .contains(canon_serial(seeds[i], strip)) || removed.contains(
            canon_serial(seeds[i], strip),
        )
}

/// One visited-set step — optionally delete `removed_ser` (recording it),
/// optionally admit the in-scope `added` — preserves scope closure and seed
/// coverage.
proof fn lemma_step_preserves(
    seeds: Seq<UrlModel>,
    strip: bool,
    v: &Validator,
    s_before: Set<Seq<u8>>,
    s_after: Set<Seq<u8>>,
    rem_before: Seq<Seq<u8>>,
    rem_after: Seq<Seq<u8>>,
    removed_ser: Option<Seq<u8>>,
    added: Option<Seq<u8>>,
)
    requires
        seeds_covered(seeds, strip, v, s_before, rem_before),
        all_in_scope(s_before, v),
        match added {
            Option::Some(a) => v.spec_valid_serial(a),
            Option::None => true,
        },
        ({
            let mid = match removed_ser {
                Option::Some(x) => s_before.remove(x),
                Option::None => s_before,
            };
            match added {
                Option::Some(a) => s_after == mid.insert(a),
                Option::None => s_after == mid,
            }
        }),
        match removed_ser {
            Option::Some(x) => rem_after == rem_before.push(x),
            Option::None => rem_after == rem_before,
        },
    ensures
        seeds_covered(seeds, strip, v, s_after, rem_after),
        all_in_scope(s_after, v),
{
    let mid = match removed_ser {
        Option::Some(x) => s_before.remove(x),
        Option::None => s_before,
    };
    assert forall|x: Seq<u8>| #[trigger] s_after.contains(x) implies v.spec_valid_serial(x) by {
        match added {
            Option::Some(a) => {
                if x != a {
                    assert(s_before.contains(x));
                }
            },
            Option::None => {
                assert(s_before.contains(x));
            },
        }
    }
    assert forall|i: int|
        0 <= i < seeds.len() && v.spec_is_valid(canon_model(#[trigger] seeds[i], strip)) implies
        s_after.contains(canon_serial(seeds[i], strip)) || rem_after.contains(
        canon_serial(seeds[i], strip),
    ) by {
        let c = canon_serial(seeds[i], strip);
        if rem_before.contains(c) {
            let j = choose|j: int| 0 <= j < rem_before.len() && rem_before[j] == c;
            assert(rem_after[j] == c);
        } else {
            assert(s_before.contains(c));
            match removed_ser {
                Option::Some(x) => {
                    if c == x {
                        assert(rem_after[rem_before.len() as int] == c);
                    } else {
                        assert(mid.contains(c));
                    }
                },
                Option::None => {
                    assert(mid.contains(c));
                },
            }
        }
    }
}

/// The whole pump, run to completion over a fixed link graph: seed phase,
/// then the worker/receive cycle — fetch (following redirects through the
/// redirect policy), extract, admit, spawn — until the frontier drains.
///
/// The contract carries the crawl's safety laws: the output has each
/// canonical URL at most once, everything in it is in scope, and every
/// in-scope seed is in the output unless a permanent move deleted it.
pub fn analyze_graph(
    seeds: &Vec<SiteUrl>,
    table: &Vec<(Vec<u8>, PageEntry)>,
    validator: &Validator,
    options: &Options,
) -> (r: CrawlOutcome)
    requires
        options.spec_max_task_count() >= 1,
    ensures
        bytes_list_view(r.sites@).no_duplicates(),
        all_in_scope(bytes_list_view(r.sites@).to_set(), validator),
        seeds_covered(
            urls_view(seeds@),
            options.spec_remove_query_and_fragment(),
            validator,
            bytes_list_view(r.sites@).to_set(),
            bytes_list_view(r.removed@),
        ),
{
    let ghost seedsv = urls_view(seeds@);
    let ghost bb: nat = max_width(table@) + 1;
    let strip = options.remove_query_and_fragment();
    let mut sites = Sites::new();
    proof {
        assert(sites.as_set() =~= Set::<Seq<u8>>::empty());
    }
    let mut removed: Vec<Vec<u8>> = Vec::new();
    let mut errors: Vec<CrawlError> = Vec::new();
    let mut fetches: usize = 0;
    let mut permits = PermitCounter::new(options.max_task_count());
    let mut frontier: Vec<StartTaskInfo> = seed_tasks(&mut sites, validator, options, seeds);
    proof {
        lemma_spec_seed_valid(Set::empty(), seedsv, validator, strip);
        lemma_spec_seed_covers(Set::empty(), seedsv, validator, strip);
        assert(bytes_list_view(removed@) =~= Seq::<Seq<u8>>::empty());
    }
    while frontier.len() > 0
        invariant
            sites.wf(),
            permits.wf(),
            permits.active == 0,
            bb == max_width(table@) + 1,
            strip == options.spec_remove_query_and_fragment(),
            all_in_scope(sites.as_set(), validator),
            seeds_covered(seedsv, strip, validator, sites.as_set(), bytes_list_view(removed@)),
        decreases frontier_measure(frontier@, bb),
    {
        let ghost m0 = frontier_measure(frontier@, bb);
        let ghost f_before = frontier@;
        let task = match frontier.pop() {
            Option::Some(t) => t,
            Option::None => {
                proof {
                    assert(false);
                }
                continue ;
            },
        };
        proof {
            assert(f_before =~= frontier@.push(task));
            lemma_frontier_measure_snoc(frontier@, task, bb);
            lemma_pow_nat_pos(bb, task.recursion as nat);
        }
        let ghost m_pop = frontier_measure(frontier@, bb);
        if !task.should_fetch() {
            continue ;
        }
        let depth = task.recursion;
        let acquired = permits.acquire();
        assert(acquired);
        let mut current: SiteUrl = task.site;
        let mut hops: usize = 0;
        let mut page_links: Option<Vec<SiteUrl>> = Option::None;
        loop
            invariant
                sites.wf(),
                hops <= 10,
                bb == max_width(table@) + 1,
                strip == options.spec_remove_query_and_fragment(),
                all_in_scope(sites.as_set(), validator),
                seeds_covered(seedsv, strip, validator, sites.as_set(), bytes_list_view(removed@)),
                match page_links {
                    Option::Some(ls) => ls@.len() <= max_width(table@),
                    Option::None => true,
                },
            decreases 10 - hops,
        {
            if fetches < usize::MAX {
                fetches = fetches + 1;
            }
            let key = serialize(&current);
            match lookup(table, &key) {
                Option::None => {
                    errors.push(CrawlError::FetchFailed { url: key });
                    break ;
                },
                Option::Some(entry) => match entry {
                    PageEntry::Page { links } => {
                        proof {
                            lemma_lookup_width(table@, key@);
                            assert(entry_width(*entry) == links@.len());
                        }
                        let cl = crate::types::clone_urls(links);
                        assert(cl@.len() == urls_view(cl@).len());
                        assert(cl@.len() == links@.len());
                        page_links = Option::Some(cl);
                        break ;
                    },
                    PageEntry::Redirect { status, location } => {
                        let ghost s_before = sites.as_set();
                        let ghost rem_before = bytes_list_view(removed@);
                        let out = redirect_decision(
                            &mut sites,
                            validator,
                            options,
                            location,
                            Option::Some(&current),
                            *status,
                        );
                        let ghost removed_ser = spec_redirect_removed(
                            Option::Some(current@),
                            *status,
                            strip,
                        );
                        match out.removed {
                            Option::Some(s) => {
                                removed.push(s);
                                proof {
                                    assert(bytes_list_view(removed@) =~= rem_before.push(
                                        removed_ser.unwrap(),
                                    ));
                                }
                            },
                            Option::None => {},
                        }
                        proof {
                            lemma_step_preserves(
                                seedsv,
                                strip,
                                validator,
                                s_before,
                                sites.as_set(),
                                rem_before,
                                bytes_list_view(removed@),
                                removed_ser,
                                match out.admitted {
                                    Option::Some(_) => Option::Some(
                                        canon_serial(location@, strip),
                                    ),
                                    Option::None => Option::None,
                                },
                            );
                        }
                        match out.action {
                            RedirectAction::Follow => {
                                // The client's own hop limit runs after the
                                // policy has acted, so the set mutations of
                                // the final hop stand even when it errors.
                                if hops >= 10 {
                                    errors.push(CrawlError::TooManyRedirects { url: key });
                                    break ;
                                }
                                hops = hops + 1;
                                current = clone_url(location);
                            },
                            RedirectAction::Stop => {
                                break ;
                            },
                            RedirectAction::Fail => {
                                errors.push(
                                    CrawlError::OutOfScopeRedirect {
                                        previous: key,
                                        target: serialize(location),
                                    },
                                );
                                break ;
                            },
                        }
                    },
                },
            }
        }
        permits.release();
        let ghost dm1: nat = (depth - 1) as nat;
        match page_links {
            Option::Some(links) => {
                let mut processed = crate::processing::process_links(links, validator, strip);
                proof {
                    lemma_process_links_len(urls_view(links@), validator, strip);
                }
                let ghost p0 = processed@.len();
                assert(p0 <= max_width(table@));
                while processed.len() > 0
                    invariant
                        sites.wf(),
                        depth >= 1,
                        bb == max_width(table@) + 1,
                        dm1 == (depth - 1) as nat,
                        strip == options.spec_remove_query_and_fragment(),
                        all_in_scope(sites.as_set(), validator),
                        seeds_covered(
                            seedsv,
                            strip,
                            validator,
                            sites.as_set(),
                            bytes_list_view(removed@),
                        ),
                        processed@.len() <= p0,
                        frontier_measure(frontier@, bb) <= m_pop + (p0 - processed@.len())
                            * pow_nat(bb, dm1),
                    decreases processed@.len(),
                {
                    let ghost m_cur = frontier_measure(frontier@, bb);
                    let ghost rem_cur = processed@.len();
                    let link = processed.remove(0);
                    let child = StartTaskInfo { site: link, recursion: depth - 1 };
                    let ghost s_before = sites.as_set();
                    let admitted = accept_task(&mut sites, validator, &child);
                    proof {
                        lemma_step_preserves(
                            seedsv,
                            strip,
                            validator,
                            s_before,
                            sites.as_set(),
                            bytes_list_view(removed@),
                            bytes_list_view(removed@),
                            Option::None,
                            if admitted {
                                Option::Some(serial_of(child.site@))
                            } else {
                                Option::None
                            },
                        );
                    }
                    if admitted {
                        proof {
                            lemma_frontier_measure_snoc(frontier@, child, bb);
                        }
                        frontier.push(child);
                    }
                    proof {
                        let p = pow_nat(bb, dm1);
                        assert((p0 - rem_cur + 1) * p == (p0 - rem_cur) * p + p)
                            by (nonlinear_arith);
                    }
                }
                proof {
                    let p = pow_nat(bb, dm1);
                    lemma_pow_nat_pos(bb, dm1);
                    assert(frontier_measure(frontier@, bb) <= m_pop + p0 * p);
                    assert(p0 * p <= (bb - 1) * p) by (nonlinear_arith)
                        requires
                            p0 <= bb - 1,
                            p >= 0,
                    ;
                    assert(pow_nat(bb, depth as nat) == bb * pow_nat(
                        bb,
                        (depth as nat - 1) as nat,
                    ));
                    assert((depth as nat - 1) as nat == dm1);
                    assert((bb - 1) * p + p == bb * p) by (nonlinear_arith);
                    assert(frontier_measure(frontier@, bb) + p <= m_pop + bb * p);
                    assert(m0 == m_pop + pow_nat(bb, depth as nat));
                    assert(frontier_measure(frontier@, bb) < m0);
                }
            },
            Option::None => {},
        }
    }
    let r = CrawlOutcome { sites: sites.drain(), removed, errors, fetches };
    r
}

/// Concurrency bound: however permits were acquired and released, the number
/// held never exceeds the pool's bound.
pub proof fn lemma_concurrency_bound(p: PermitCounter)
    requires
        p.wf(),
    ensures
        p.active <= p.max,
{
}

} // verus!
