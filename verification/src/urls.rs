use vstd::prelude::*;
use vstd::multiset::Multiset;
use vstd::relations::total_ordering;
use vstd::seq_lib::lemma_sorted_unique;
use vstd::string::{StrSliceExecFns, StringSliceAdditionalSpecFns};
use crate::utils::{bytes_le, lemma_bytes_le_refl, lemma_bytes_le_antisymmetric,
    lemma_bytes_le_transitive, lemma_bytes_le_connected};

verus! {

/// Separator bytes of a URL serialization.
pub const QMARK: u8 = 63;

pub const HASH: u8 = 35;

pub const AMP: u8 = 38;

pub const EQS: u8 = 61;

/// One `key=value` query parameter, kept percent-encoded exactly as written.
pub struct QueryPair {
    pub key: Vec<u8>,
    pub value: Vec<u8>,
}

impl View for QueryPair {
    type V = (Seq<u8>, Seq<u8>);

    open spec fn view(&self) -> (Seq<u8>, Seq<u8>) {
        (self.key@, self.value@)
    }
}

/// Mathematical model of a parsed hierarchical URL: the serialization up to
/// (but excluding) any `?` or `#` (the stem), the query as a list of pairs,
/// and the fragment.
#[verifier::ext_equal]
pub ghost struct UrlModel {
    pub scheme: Seq<u8>,
    pub stem: Seq<u8>,
    pub query: Option<Seq<(Seq<u8>, Seq<u8>)>>,
    pub fragment: Option<Seq<u8>>,
}

/// A parsed absolute hierarchical URL, split into the components the crawler
/// reads: scheme, stem (serialization up to any query or fragment), query
/// parameters and fragment.
pub struct SiteUrl {
    pub scheme: Vec<u8>,
    pub stem: Vec<u8>,
    pub query: Option<Vec<QueryPair>>,
    pub fragment: Option<Vec<u8>>,
}

pub open spec fn pairs_view(ps: Seq<QueryPair>) -> Seq<(Seq<u8>, Seq<u8>)> {
    ps.map_values(|p: QueryPair| p@)
}

impl View for SiteUrl {
    type V = UrlModel;

    open spec fn view(&self) -> UrlModel {
        UrlModel {
            scheme: self.scheme@,
            stem: self.stem@,
            query: match self.query {
                Option::None => Option::None,
                Option::Some(ps) => Option::Some(pairs_view(ps@)),
            },
            fragment: match self.fragment {
                Option::None => Option::None,
                Option::Some(f) => Option::Some(f@),
            },
        }
    }
}

/// Index of the first occurrence of `b` in `s`, or `s.len()` if absent.
pub open spec fn first_byte(s: Seq<u8>, b: u8) -> nat
    decreases s.len(),
{
    if s.len() == 0 {
        0
    } else if s[0] == b {
        0
    } else {
        1 + first_byte(s.drop_first(), b)
    }
}

pub proof fn lemma_first_byte_is(s: Seq<u8>, b: u8, k: int)
    requires
        0 <= k <= s.len(),
        forall|j: int| 0 <= j < k ==> s[j] != b,
        k < s.len() ==> s[k] == b,
    ensures
        first_byte(s, b) == k,
    decreases k,
{
    if k > 0 {
        lemma_first_byte_is(s.drop_first(), b, k - 1);
    }
}

/// Splits one `&`-separated query piece at its first `=`; a piece without `=`
/// gets an empty value.
pub open spec fn split_piece(piece: Seq<u8>) -> (Seq<u8>, Seq<u8>) {
    let j = first_byte(piece, EQS) as int;
    if j == piece.len() {
        (piece, Seq::empty())
    } else {
        (piece.subrange(0, j), piece.subrange(j + 1, piece.len() as int))
    }
}

/// Splits a raw query string into its `&`-separated key/value pairs.
pub open spec fn split_query(q: Seq<u8>) -> Seq<(Seq<u8>, Seq<u8>)>
    decreases q.len(),
{
    let i = first_byte(q, AMP) as int;
    if i >= q.len() {
        seq![split_piece(q)]
    } else {
        seq![split_piece(q.subrange(0, i))] + split_query(q.subrange(i + 1, q.len() as int))
    }
}

/// Serialization of one query pair as `key=value`.
pub open spec fn pair_bytes(p: (Seq<u8>, Seq<u8>)) -> Seq<u8> {
    p.0 + seq![EQS] + p.1
}

/// Serialization of a query pair list, `&`-separated.
pub open spec fn join_pairs(ps: Seq<(Seq<u8>, Seq<u8>)>) -> Seq<u8>
    decreases ps.len(),
{
    if ps.len() == 0 {
        Seq::empty()
    } else if ps.len() == 1 {
        pair_bytes(ps[0])
    } else {
        pair_bytes(ps[0]) + seq![AMP] + join_pairs(ps.drop_first())
    }
}

pub proof fn lemma_join_pairs_snoc(ps: Seq<(Seq<u8>, Seq<u8>)>, x: (Seq<u8>, Seq<u8>))
    ensures
        ps.len() == 0 ==> join_pairs(ps.push(x)) == pair_bytes(x),
        ps.len() > 0 ==> join_pairs(ps.push(x)) == join_pairs(ps) + seq![AMP] + pair_bytes(x),
    decreases ps.len(),
{
    if ps.len() == 0 {
        assert(ps.push(x)[0] == x);
        assert(join_pairs(ps.push(x)) == pair_bytes(x));
    } else {
        lemma_join_pairs_snoc(ps.drop_first(), x);
        assert(ps.push(x).drop_first() =~= ps.drop_first().push(x));
        assert(ps.push(x)[0] == ps[0]);
        if ps.len() == 1 {
            assert(join_pairs(ps.push(x)) == pair_bytes(ps[0]) + seq![AMP] + join_pairs(
                ps.drop_first().push(x),
            ));
            assert(join_pairs(ps.drop_first().push(x)) == pair_bytes(x));
        } else {
            assert(join_pairs(ps) == pair_bytes(ps[0]) + seq![AMP] + join_pairs(ps.drop_first()));
            assert((pair_bytes(ps[0]) + seq![AMP] + (join_pairs(ps.drop_first()) + seq![AMP]
                + pair_bytes(x))) =~= (pair_bytes(ps[0]) + seq![AMP] + join_pairs(ps.drop_first()))
                + seq![AMP] + pair_bytes(x));
        }
    }
}

/// Full serialization of a URL model: stem, then `?query`, then `#fragment`.
pub open spec fn serial_of(m: UrlModel) -> Seq<u8> {
    m.stem + (match m.query {
        Option::None => Seq::<u8>::empty(),
        Option::Some(ps) => seq![QMARK] + join_pairs(ps),
    }) + (match m.fragment {
        Option::None => Seq::<u8>::empty(),
        Option::Some(f) => seq![HASH] + f,
    })
}

/// Order on query pairs: by key, then by value, both byte-lexicographic.
pub open spec fn pair_le(p: (Seq<u8>, Seq<u8>), q: (Seq<u8>, Seq<u8>)) -> bool {
    if p.0 == q.0 {
        bytes_le(p.1, q.1)
    } else {
        bytes_le(p.0, q.0)
    }
}

/// The pair order as a first-class function, so that every use names the same
/// closure.
pub open spec fn pair_le_fn() -> spec_fn((Seq<u8>, Seq<u8>), (Seq<u8>, Seq<u8>)) -> bool {
    |p: (Seq<u8>, Seq<u8>), q: (Seq<u8>, Seq<u8>)| pair_le(p, q)
}

/// `pair_le` is a total order on query pairs.
pub proof fn lemma_pair_le_total_ordering()
    ensures
        total_ordering(pair_le_fn()),
{
    let leq = pair_le_fn();
    assert forall|p: (Seq<u8>, Seq<u8>)| #[trigger] leq(p, p) by {
        lemma_bytes_le_refl(p.1);
    }
    assert forall|p: (Seq<u8>, Seq<u8>), q: (Seq<u8>, Seq<u8>)|
        #[trigger] leq(p, q) && #[trigger] leq(q, p) implies p == q by {
        if p.0 == q.0 {
            lemma_bytes_le_antisymmetric(p.1, q.1);
        } else {
            lemma_bytes_le_antisymmetric(p.0, q.0);
        }
    }
    assert forall|p: (Seq<u8>, Seq<u8>), q: (Seq<u8>, Seq<u8>), r: (Seq<u8>, Seq<u8>)|
        #[trigger] leq(p, q) && #[trigger] leq(q, r) implies leq(p, r) by {
        if p.0 == q.0 && q.0 == r.0 {
            lemma_bytes_le_transitive(p.1, q.1, r.1);
        } else if p.0 == q.0 {
        } else if q.0 == r.0 {
        } else {
            lemma_bytes_le_transitive(p.0, q.0, r.0);
            if p.0 == r.0 {
                lemma_bytes_le_antisymmetric(p.0, q.0);
            }
        }
    }
    assert forall|p: (Seq<u8>, Seq<u8>), q: (Seq<u8>, Seq<u8>)|
        #[trigger] leq(p, q) || #[trigger] leq(q, p) by {
        if p.0 == q.0 {
            lemma_bytes_le_connected(p.1, q.1);
        } else {
            lemma_bytes_le_connected(p.0, q.0);
        }
    }
}

/// The canonical form of a URL: query pairs sorted (or the query dropped
/// entirely when `strip` is set) and the fragment removed.
pub open spec fn canon_model(m: UrlModel, strip: bool) -> UrlModel {
    UrlModel {
        scheme: m.scheme,
        stem: m.stem,
        query: if strip {
            Option::None
        } else {
            match m.query {
                Option::None => Option::None,
                Option::Some(ps) => Option::Some(ps.sort_by(pair_le_fn())),
            }
        },
        fragment: Option::None,
    }
}

/// Canonicalization is idempotent: canonicalizing a canonical URL changes
/// nothing.
pub proof fn lemma_canonicalize_idempotent(m: UrlModel, strip: bool)
    ensures
        canon_model(canon_model(m, strip), strip) == canon_model(m, strip),
{
    lemma_pair_le_total_ordering();
    if !strip {
        match m.query {
            Option::None => {},
            Option::Some(ps) => {
                let leq = pair_le_fn();
                let s1 = ps.sort_by(leq);
                ps.lemma_sort_by_ensures(leq);
                s1.lemma_sort_by_ensures(leq);
                lemma_sorted_unique(s1.sort_by(leq), s1, leq);
                assert(s1.sort_by(leq) =~= s1);
            },
        }
    }
    assert(canon_model(canon_model(m, strip), strip) =~= canon_model(m, strip));
}

/// Canonicalization ignores query order and fragment: two URLs with the same
/// scheme and stem, whose query pair lists are permutations of each other, and
/// with arbitrary fragments, canonicalize to the same URL.
pub proof fn lemma_canonicalize_permutation(m1: UrlModel, m2: UrlModel, strip: bool)
    requires
        m1.scheme == m2.scheme,
        m1.stem == m2.stem,
        match (m1.query, m2.query) {
            (Option::Some(q1), Option::Some(q2)) => q1.to_multiset() == q2.to_multiset(),
            (Option::None, Option::None) => true,
            _ => false,
        },
    ensures
        canon_model(m1, strip) == canon_model(m2, strip),
{
    lemma_pair_le_total_ordering();
    if !strip {
        match (m1.query, m2.query) {
            (Option::Some(q1), Option::Some(q2)) => {
                let leq = pair_le_fn();
                q1.lemma_sort_by_ensures(leq);
                q2.lemma_sort_by_ensures(leq);
                lemma_sorted_unique(q1.sort_by(leq), q2.sort_by(leq), leq);
            },
            _ => {},
        }
    }
    assert(canon_model(m1, strip) =~= canon_model(m2, strip));
}

/// Copies the byte range `[a, b)` of `q` into a fresh vector.
pub fn copy_range(q: &Vec<u8>, a: usize, b: usize) -> (r: Vec<u8>)
    requires
        a <= b <= q@.len(),
    ensures
        r@ == q@.subrange(a as int, b as int),
{
    let mut r: Vec<u8> = Vec::new();
    let mut i: usize = a;
    assert(q@.subrange(a as int, a as int) =~= r@);
    while i < b
        invariant
            a <= i <= b <= q@.len(),
            r@ == q@.subrange(a as int, i as int),
        decreases b - i,
    {
        r.push(q[i]);
        assert(q@.subrange(a as int, (i + 1) as int) =~= q@.subrange(a as int, i as int).push(
            q@[i as int],
        ));
        i += 1;
    }
    r
}

/// Copies a byte vector.
pub fn clone_bytes(b: &Vec<u8>) -> (r: Vec<u8>)
    ensures
        r@ == b@,
{
    let r = copy_range(b, 0, b.len());
    assert(b@.subrange(0, b@.len() as int) =~= b@);
    r
}

/// Appends the bytes of `b` to `out`.
pub fn push_bytes(out: &mut Vec<u8>, b: &Vec<u8>)
    ensures
        final(out)@ == old(out)@ + b@,
{
    let mut i: usize = 0;
    assert(out@ =~= old(out)@ + b@.subrange(0, 0));
    while i < b.len()
        invariant
            i <= b@.len(),
            out@ == old(out)@ + b@.subrange(0, i as int),
        decreases b@.len() - i,
    {
        out.push(b[i]);
        assert(old(out)@ + b@.subrange(0, (i + 1) as int) =~= (old(out)@ + b@.subrange(
            0,
            i as int,
        )).push(b@[i as int]));
        i += 1;
    }
    assert(b@.subrange(0, b@.len() as int) =~= b@);
}

/// Splits a raw query string into its key/value pairs, as `split_query` says.
pub fn split_query_exec(q: &Vec<u8>) -> (r: Vec<QueryPair>)
    ensures
        pairs_view(r@) == split_query(q@),
{
    let mut res: Vec<QueryPair> = Vec::new();
    let mut start: usize = 0;
    proof {
        assert(q@.skip(0) =~= q@);
        assert(pairs_view(res@) =~= Seq::<(Seq<u8>, Seq<u8>)>::empty());
        assert(pairs_view(res@) + split_query(q@) =~= split_query(q@));
    }
    loop
        invariant
            start <= q@.len(),
            split_query(q@) == pairs_view(res@) + split_query(q@.skip(start as int)),
        decreases q@.len() - start,
    {
        let ghost suffix = q@.skip(start as int);
        // Find the next `&` at or after `start`.
        let mut i: usize = start;
        while i < q.len() && q[i] != AMP
            invariant
                start <= i <= q@.len(),
                forall|j: int| start <= j < i ==> q@[j] != AMP,
            decreases q@.len() - i,
        {
            i += 1;
        }
        proof {
            assert forall|j: int| 0 <= j < i - start implies suffix[j] != AMP by {
                assert(suffix[j] == q@[start + j]);
            }
            lemma_first_byte_is(suffix, AMP, i - start);
        }
        // Find the first `=` of the piece.
        let mut j: usize = start;
        while j < i && q[j] != EQS
            invariant
                start <= j <= i <= q@.len(),
                forall|k: int| start <= k < j ==> q@[k] != EQS,
            decreases i - j,
        {
            j += 1;
        }
        let ghost piece = q@.subrange(start as int, i as int);
        proof {
            assert(piece =~= suffix.subrange(0, i - start));
            assert forall|k: int| 0 <= k < j - start implies piece[k] != EQS by {
                assert(piece[k] == q@[start + k]);
            }
            if j < i {
                assert(piece[j - start] == q@[j as int]);
            }
            lemma_first_byte_is(piece, EQS, j - start);
        }
        let key = copy_range(q, start, j);
        let value = if j < i {
            copy_range(q, j + 1, i)
        } else {
            Vec::new()
        };
        proof {
            assert(key@ =~= piece.subrange(0, j - start));
            if j < i {
                assert(value@ =~= piece.subrange(j - start + 1, piece.len() as int));
            } else {
                assert(key@ =~= piece);
            }
        }
        let pair = QueryPair { key, value };
        assert(pair@ == split_piece(piece));
        res.push(pair);
        proof {
            assert(pairs_view(res@) =~= pairs_view(res@.drop_last()).push(pair@));
        }
        if i == q.len() {
            proof {
                assert(first_byte(suffix, AMP) == suffix.len());
                assert(piece =~= suffix);
                assert(split_query(suffix) =~= seq![split_piece(suffix)]);
                assert(pairs_view(res@) =~= pairs_view(res@.drop_last()) + seq![split_piece(
                    suffix,
                )]);
            }
            return res;
        }
        proof {
            assert(q@[i as int] == AMP);
            assert((i - start) < suffix.len());
            assert(split_query(suffix) == seq![split_piece(suffix.subrange(0, i - start))]
                + split_query(suffix.subrange(i - start + 1, suffix.len() as int)));
            assert(suffix.subrange(i - start + 1, suffix.len() as int) =~= q@.skip(i + 1));
            assert(pairs_view(res@) + split_query(q@.skip(i + 1)) =~= pairs_view(
                res@.drop_last(),
            ) + split_query(suffix));
        }
        start = i + 1;
    }
}

/// Serializes a URL back to bytes: stem, `?` and the query pairs, `#` and the
/// fragment.
pub fn serialize(url: &SiteUrl) -> (r: Vec<u8>)
    ensures
        r@ == serial_of(url@),
{
    let mut out = clone_bytes(&url.stem);
    match &url.query {
        Option::None => {},
        Option::Some(ps) => {
            out.push(QMARK);
            assert(out@ =~= url.stem@ + seq![QMARK] + join_pairs(pairs_view(ps@).take(0)));
            let mut k: usize = 0;
            while k < ps.len()
                invariant
                    k <= ps@.len(),
                    out@ == url.stem@ + seq![QMARK] + join_pairs(pairs_view(ps@).take(k as int)),
                decreases ps@.len() - k,
            {
                let ghost taken = pairs_view(ps@).take(k as int);
                if k > 0 {
                    out.push(AMP);
                }
                push_bytes(&mut out, &ps[k].key);
                out.push(EQS);
                push_bytes(&mut out, &ps[k].value);
                proof {
                    let ghost p = pairs_view(ps@)[k as int];
                    lemma_join_pairs_snoc(taken, p);
                    assert(pairs_view(ps@).take((k + 1) as int) =~= taken.push(p));
                    if k == 0 {
                        assert(out@ =~= url.stem@ + seq![QMARK] + pair_bytes(p));
                    } else {
                        assert(out@ =~= url.stem@ + seq![QMARK] + (join_pairs(taken) + seq![AMP]
                            + pair_bytes(p)));
                    }
                }
                k += 1;
            }
            assert(pairs_view(ps@).take(ps@.len() as int) =~= pairs_view(ps@));
        },
    }
    match &url.fragment {
        Option::None => {},
        Option::Some(f) => {
            out.push(HASH);
            push_bytes(&mut out, f);
        },
    }
    assert(out@ =~= serial_of(url@));
    out
}

/// Compares two query pairs in the canonical order.
pub fn pair_le_exec(p: &QueryPair, q: &QueryPair) -> (r: bool)
    ensures
        r == pair_le(p@, q@),
{
    if crate::utils::bytes_eq(&p.key, &q.key) {
        crate::utils::bytes_le_exec(&p.value, &q.value)
    } else {
        crate::utils::bytes_le_exec(&p.key, &q.key)
    }
}

/// Sorts query pairs by key, then value (selection sort).
pub fn sort_pairs(ps: Vec<QueryPair>) -> (r: Vec<QueryPair>)
    ensures
        pairs_view(r@) == pairs_view(ps@).sort_by(pair_le_fn()),
{
    broadcast use vstd::seq_lib::group_to_multiset_ensures;
    broadcast use vstd::multiset::group_multiset_axioms;

    proof {
        lemma_pair_le_total_ordering();
    }
    let ghost orig = pairs_view(ps@);
    let ghost leq = pair_le_fn();
    let mut v = ps;
    let mut out: Vec<QueryPair> = Vec::new();
    proof {
        assert(pairs_view(out@) =~= Seq::<(Seq<u8>, Seq<u8>)>::empty());
        assert(pairs_view(out@).to_multiset() =~= Multiset::empty());
        assert(pairs_view(out@).to_multiset().add(pairs_view(v@).to_multiset()) =~= orig
            .to_multiset());
    }
    while v.len() > 0
        invariant
            leq == pair_le_fn(),
            total_ordering(leq),
            vstd::relations::sorted_by(pairs_view(out@), leq),
            pairs_view(out@).to_multiset().add(pairs_view(v@).to_multiset()) == orig.to_multiset(),
            forall|i: int, j: int|
                0 <= i < out@.len() && 0 <= j < v@.len() ==> #[trigger] leq(
                    pairs_view(out@)[i],
                    pairs_view(v@)[j],
                ),
        decreases v@.len(),
    {
        broadcast use vstd::seq_lib::group_to_multiset_ensures;
        broadcast use vstd::multiset::group_multiset_axioms;

        let mut m: usize = 0;
        let mut k: usize = 1;
        while k < v.len()
            invariant
                m < k <= v@.len() || (k <= v@.len() && m < v@.len()),
                m < v@.len(),
                k <= v@.len(),
                leq == pair_le_fn(),
                total_ordering(leq),
                forall|j: int| 0 <= j < k ==> #[trigger] leq(pairs_view(v@)[m as int], pairs_view(v@)[j]),
            decreases v@.len() - k,
        {
            if pair_le_exec(&v[k], &v[m]) {
                proof {
                    let vv = pairs_view(v@);
                    assert forall|j: int| 0 <= j < k + 1 implies #[trigger] leq(vv[k as int], vv[j]) by {
                        if j < k {
                            assert(leq(vv[m as int], vv[j]));
                            assert(leq(vv[k as int], vv[m as int]));
                        } else {
                            assert(leq(vv[k as int], vv[k as int]));
                        }
                    }
                }
                m = k;
            } else {
                proof {
                    let vv = pairs_view(v@);
                    assert(leq(vv[k as int], vv[m as int]) || leq(vv[m as int], vv[k as int]));
                }
            }
            k += 1;
        }
        let ghost old_v = pairs_view(v@);
        let ghost old_out = pairs_view(out@);
        let x = v.remove(m);
        out.push(x);
        proof {
            let new_v = pairs_view(v@);
            let new_out = pairs_view(out@);
            assert(new_v =~= old_v.remove(m as int));
            assert(new_out =~= old_out.push(x@));
            assert(x@ == old_v[m as int]);
            assert(old_v.contains(old_v[m as int]));
            assert(old_v.to_multiset().count(x@) > 0);
            assert(new_out.to_multiset().add(new_v.to_multiset()) =~= old_out.to_multiset().add(
                old_v.to_multiset(),
            ));
            assert forall|i: int, j: int|
                0 <= i < j < new_out.len() implies #[trigger] leq(new_out[i], new_out[j]) by {
                if j < new_out.len() - 1 {
                    assert(leq(old_out[i], old_out[j]));
                } else {
                    assert(leq(old_out[i], old_v[m as int]));
                }
            }
            assert forall|i: int, j: int|
                0 <= i < new_out.len() && 0 <= j < new_v.len() implies #[trigger] leq(
                new_out[i],
                new_v[j],
            ) by {
                let q = if j < m { old_v[j] } else { old_v[j + 1] };
                assert(new_v[j] == q);
                if i < new_out.len() - 1 {
                    assert(leq(old_out[i], q));
                } else {
                    assert(leq(old_v[m as int], q));
                }
            }
        }
    }
    proof {
        assert(pairs_view(v@) =~= Seq::<(Seq<u8>, Seq<u8>)>::empty());
        assert(pairs_view(v@).to_multiset() =~= Multiset::empty());
        assert(pairs_view(out@).to_multiset() =~= orig.to_multiset());
        orig.lemma_sort_by_ensures(leq);
        lemma_sorted_unique(pairs_view(out@), orig.sort_by(leq), leq);
        assert(pairs_view(out@) =~= orig.sort_by(leq));
    }
    out
}

/// Copies a query pair.
pub fn clone_pair(p: &QueryPair) -> (r: QueryPair)
    ensures
        r@ == p@,
{
    QueryPair { key: clone_bytes(&p.key), value: clone_bytes(&p.value) }
}

/// Copies a URL.
pub fn clone_url(u: &SiteUrl) -> (r: SiteUrl)
    ensures
        r@ == u@,
{
    let query = match &u.query {
        Option::None => Option::None,
        Option::Some(ps) => {
            let mut copy: Vec<QueryPair> = Vec::new();
            let mut i: usize = 0;
            while i < ps.len()
                invariant
                    i <= ps@.len(),
                    pairs_view(copy@) == pairs_view(ps@).take(i as int),
                decreases ps@.len() - i,
            {
                copy.push(clone_pair(&ps[i]));
                proof {
                    assert(pairs_view(copy@) =~= pairs_view(copy@.drop_last()).push(
                        pairs_view(ps@)[i as int],
                    ));
                    assert(pairs_view(ps@).take((i + 1) as int) =~= pairs_view(ps@).take(
                        i as int,
                    ).push(pairs_view(ps@)[i as int]));
                }
                i += 1;
            }
            assert(pairs_view(ps@).take(ps@.len() as int) =~= pairs_view(ps@));
            Option::Some(copy)
        },
    };
    let fragment = match &u.fragment {
        Option::None => Option::None,
        Option::Some(f) => Option::Some(clone_bytes(f)),
    };
    let r = SiteUrl { scheme: clone_bytes(&u.scheme), stem: clone_bytes(&u.stem), query, fragment };
    assert(r@ =~= u@);
    r
}

/// Raw components handed back by the URL parser: scheme, stem (serialization
/// up to any query or fragment), raw query bytes and raw fragment bytes.
pub struct RawUrl {
    pub scheme: Vec<u8>,
    pub stem: Vec<u8>,
    pub query: Option<Vec<u8>>,
    pub fragment: Option<Vec<u8>>,
}

pub open spec fn opt_bytes_view(o: Option<Vec<u8>>) -> Option<Seq<u8>> {
    match o {
        Option::None => Option::None,
        Option::Some(b) => Option::Some(b@),
    }
}

pub open spec fn raw_view(r: RawUrl) -> (Seq<u8>, Seq<u8>, Option<Seq<u8>>, Option<Seq<u8>>) {
    (r.scheme@, r.stem@, opt_bytes_view(r.query), opt_bytes_view(r.fragment))
}

/// What `url::Url::parse` makes of a byte string: `None` if it is not an
/// absolute URL that can serve as a base, otherwise its scheme, stem, raw
/// query and raw fragment.
pub uninterp spec fn url_parse(s: Seq<u8>) -> Option<(Seq<u8>, Seq<u8>, Option<Seq<u8>>, Option<Seq<u8>>)>;

/// What `url::Url::join` makes of a reference `rel` resolved against the URL
/// serialized as `base`, in the same shape as `url_parse`.
pub uninterp spec fn url_join(base: Seq<u8>, rel: Seq<u8>) -> Option<(Seq<u8>, Seq<u8>, Option<Seq<u8>>, Option<Seq<u8>>)>;

/// Relies on `url::Url::parse` and the accessors `scheme`, `query`,
/// `fragment`, `set_query`, `set_fragment` and `as_str`: parses an absolute
/// URL, refuses one that cannot be a base, and splits its serialization into
/// scheme, stem, raw query and raw fragment.
#[verifier::external_body]
fn parse_raw(s: &Vec<u8>) -> (r: Option<RawUrl>)
    ensures
        match r {
            Option::Some(raw) => url_parse(s@) == Option::Some(raw_view(raw)),
            Option::None => url_parse(s@) == Option::<(Seq<u8>, Seq<u8>, Option<Seq<u8>>, Option<Seq<u8>>)>::None,
        },
{
    let text = core::str::from_utf8(s.as_slice()).ok()?;
    let u = url::Url::parse(text).ok()?;
    if u.cannot_be_a_base() {
        return None;
    }
    let scheme = u.scheme().as_bytes().to_vec();
    let query = u.query().map(|q| q.as_bytes().to_vec());
    let fragment = u.fragment().map(|f| f.as_bytes().to_vec());
    let mut bare = u;
    bare.set_query(None);
    bare.set_fragment(None);
    let stem = bare.as_str().as_bytes().to_vec();
    Some(RawUrl { scheme, stem, query, fragment })
}

/// Relies on `url::Url::join` (and `url::Url::parse` to rebuild the base from
/// its serialization), then splits the result as `parse_raw` does.
#[verifier::external_body]
fn join_raw(base: &Vec<u8>, rel: &Vec<u8>) -> (r: Option<RawUrl>)
    ensures
        match r {
            Option::Some(raw) => url_join(base@, rel@) == Option::Some(raw_view(raw)),
            Option::None => url_join(base@, rel@) == Option::<(Seq<u8>, Seq<u8>, Option<Seq<u8>>, Option<Seq<u8>>)>::None,
        },
{
    let btext = core::str::from_utf8(base.as_slice()).ok()?;
    let rtext = core::str::from_utf8(rel.as_slice()).ok()?;
    let u = url::Url::parse(btext).ok()?.join(rtext).ok()?;
    if u.cannot_be_a_base() {
        return None;
    }
    let scheme = u.scheme().as_bytes().to_vec();
    let query = u.query().map(|q| q.as_bytes().to_vec());
    let fragment = u.fragment().map(|f| f.as_bytes().to_vec());
    let mut bare = u;
    bare.set_query(None);
    bare.set_fragment(None);
    let stem = bare.as_str().as_bytes().to_vec();
    Some(RawUrl { scheme, stem, query, fragment })
}

/// The URL model built from raw parser output: the raw query is split into
/// key/value pairs.
pub open spec fn model_of_raw(t: (Seq<u8>, Seq<u8>, Option<Seq<u8>>, Option<Seq<u8>>)) -> UrlModel {
    UrlModel {
        scheme: t.0,
        stem: t.1,
        query: match t.2 {
            Option::None => Option::None,
            Option::Some(q) => Option::Some(split_query(q)),
        },
        fragment: t.3,
    }
}

/// Spec-level result of parsing the byte string `s` as an absolute URL.
pub open spec fn parsed_model(s: Seq<u8>) -> Option<UrlModel> {
    match url_parse(s) {
        Option::None => Option::None,
        Option::Some(t) => Option::Some(model_of_raw(t)),
    }
}

/// Spec-level result of resolving `rel` against the URL serialized as `base`.
pub open spec fn joined_model(base: Seq<u8>, rel: Seq<u8>) -> Option<UrlModel> {
    match url_join(base, rel) {
        Option::None => Option::None,
        Option::Some(t) => Option::Some(model_of_raw(t)),
    }
}

fn build_url(raw: RawUrl) -> (u: SiteUrl)
    ensures
        u@ == model_of_raw(raw_view(raw)),
{
    let ghost rv = raw_view(raw);
    let RawUrl { scheme, stem, query, fragment } = raw;
    let split = match query {
        Option::None => Option::None,
        Option::Some(q) => Option::Some(split_query_exec(&q)),
    };
    let u = SiteUrl { scheme, stem, query: split, fragment };
    assert(u@ =~= model_of_raw(rv));
    u
}

impl SiteUrl {
    /// Parses an absolute, base-capable URL from text.
    pub fn parse(s: &str) -> (r: Option<SiteUrl>)
        ensures
            match r {
                Option::Some(u) => parsed_model(s.spec_bytes()) == Option::Some(u@),
                Option::None => parsed_model(s.spec_bytes()) is None,
            },
    {
        let bytes = s.as_bytes_vec();
        Self::parse_bytes(&bytes)
    }

    /// Parses an absolute, base-capable URL from bytes.
    pub fn parse_bytes(s: &Vec<u8>) -> (r: Option<SiteUrl>)
        ensures
            match r {
                Option::Some(u) => parsed_model(s@) == Option::Some(u@),
                Option::None => parsed_model(s@) is None,
            },
    {
        match parse_raw(s) {
            Option::None => Option::None,
            Option::Some(raw) => Option::Some(build_url(raw)),
        }
    }

    /// Resolves the reference `rel` against the URL serialized as `base`.
    pub fn join(base: &Vec<u8>, rel: &Vec<u8>) -> (r: Option<SiteUrl>)
        ensures
            match r {
                Option::Some(u) => joined_model(base@, rel@) == Option::Some(u@),
                Option::None => joined_model(base@, rel@) is None,
            },
    {
        match join_raw(base, rel) {
            Option::None => Option::None,
            Option::Some(raw) => Option::Some(build_url(raw)),
        }
    }

    /// Serializes this URL.
    pub fn to_bytes(&self) -> (r: Vec<u8>)
        ensures
            r@ == serial_of(self@),
    {
        serialize(self)
    }
}

/// Canonicalizes a URL: sorts the query pairs (or strips the query entirely)
/// and drops the fragment.
pub fn canonicalize(url: SiteUrl, strip: bool) -> (r: SiteUrl)
    ensures
        r@ == canon_model(url@, strip),
{
    let SiteUrl { scheme, stem, query, fragment: _ } = url;
    let new_query = if strip {
        Option::None
    } else {
        match query {
            Option::None => Option::None,
            Option::Some(ps) => Option::Some(sort_pairs(ps)),
        }
    };
    let r = SiteUrl { scheme, stem, query: new_query, fragment: Option::None };
    assert(r@ =~= canon_model(url@, strip));
    r
}

} // verus!
