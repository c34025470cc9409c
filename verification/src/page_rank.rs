//! The ranker: answers a query over a registry of documents.
//!
//! A query term is matched case-insensitively against every document
//! title.  The matching documents, capped at the requested capacity,
//! become the nodes of a connection graph whose remaining slots are
//! filled with self-looping placeholder nodes; each matched document is
//! connected uniformly to the matched documents it links to, with a
//! forced self reference when it links to none of them.  The documents
//! come back ordered best to worst by an exact stationary distribution
//! of that subgraph's damped walk, equal ranks keeping match order.

use crate::graph_rank::{is_rank_vector, rank_failure, ConnectionGraph};
use crate::rational::{norm_rat, rat_eq, rat_lt, Rat};
use crate::registry::{clone_site, registry_wf, site_eq, SiteKey, SiteLog};
use crate::vector::{is_prob_dist, vec_wf};
use crate::RankError;
use vstd::prelude::*;
use vstd::set_lib::{lemma_int_range, lemma_len_subset, set_int_range};

verus! {

/// What `str::to_lowercase` returns for a string with these
/// characters; the result depends on the characters alone.
pub uninterp spec fn lower_of(s: Seq<char>) -> Seq<char>;

/// Relies on str::to_lowercase: the returned string is the lowercase
/// equivalent of the input, a function of the input characters alone.
#[verifier::external_body]
fn lowercase(s: &str) -> (r: String)
    ensures
        r@ == lower_of(s@),
{
    s.to_lowercase()
}

/// Does `needle` occur as a contiguous run inside `hay`?
pub open spec fn is_substring(hay: Seq<char>, needle: Seq<char>) -> bool {
    exists|i: int|
        0 <= i <= hay.len() - needle.len() && #[trigger] hay.subrange(i, i + needle.len())
            == needle
}

/// Substring search by direct comparison at every offset.
fn contains_seq(hay: &str, needle: &str) -> (r: bool)
    ensures
        r == is_substring(hay@, needle@),
{
    let hl = hay.unicode_len();
    let nl = needle.unicode_len();
    if nl > hl {
        return false;
    }
    let mut i: usize = 0;
    while i <= hl - nl
        invariant
            nl <= hl,
            hl == hay@.len(),
            nl == needle@.len(),
            0 <= i <= hl - nl + 1,
            forall|p: int|
                0 <= p < i ==> #[trigger] hay@.subrange(p, p + needle@.len()) != needle@,
        decreases hl - nl - i + 1,
    {
        let mut k: usize = 0;
        let mut matched = true;
        while k < nl
            invariant
                nl <= hl,
                hl == hay@.len(),
                nl == needle@.len(),
                i + nl <= hl,
                0 <= k <= nl,
                matched ==> forall|q: int| 0 <= q < k ==> hay@[i + q] == needle@[q],
                !matched ==> hay@.subrange(i as int, i + needle@.len()) != needle@,
                !matched ==> nl >= 1,
            decreases nl - k,
        {
            if hay.get_char(i + k) != needle.get_char(k) {
                proof {
                    assert(hay@.subrange(i as int, i + needle@.len())[k as int] == hay@[i + k]);
                }
                matched = false;
                k = nl;
            } else {
                k = k + 1;
            }
        }
        if matched {
            proof {
                assert(hay@.subrange(i as int, i + needle@.len()) =~= needle@);
            }
            return true;
        }
        i = i + 1;
    }
    proof {
        assert forall|p: int|
            0 <= p <= hay@.len() - needle@.len() implies #[trigger] hay@.subrange(
            p,
            p + needle@.len(),
        ) != needle@ by {
        }
    }
    false
}

/// Does the document's lowercased title contain the lowercased query?
pub open spec fn site_matches(s: SiteLog, lterm: Seq<char>) -> bool {
    is_substring(lower_of(s.title@), lterm)
}

/// The registry indices of the documents whose titles match, in
/// registry order.
pub open spec fn matched_idxs(sites: Seq<SiteLog>, lterm: Seq<char>) -> Seq<int>
    decreases sites.len(),
{
    if sites.len() == 0 {
        Seq::empty()
    } else {
        let prev = matched_idxs(sites.drop_last(), lterm);
        if site_matches(sites.last(), lterm) {
            prev.push(sites.len() - 1)
        } else {
            prev
        }
    }
}

/// The match set, cut to the first `capacity` documents in registry
/// order.
pub open spec fn truncated_matches(sites: Seq<SiteLog>, lterm: Seq<char>, capacity: int) -> Seq<
    int,
> {
    let matched = matched_idxs(sites, lterm);
    if matched.len() <= capacity {
        matched
    } else {
        matched.take(capacity)
    }
}

/// Every matched index points into the registry.
proof fn lemma_matched_bounds(sites: Seq<SiteLog>, lterm: Seq<char>)
    ensures
        forall|a: int|
            0 <= a < matched_idxs(sites, lterm).len() ==> 0 <= #[trigger] matched_idxs(
                sites,
                lterm,
            )[a] < sites.len(),
    decreases sites.len(),
{
    if sites.len() > 0 {
        lemma_matched_bounds(sites.drop_last(), lterm);
        let prev = matched_idxs(sites.drop_last(), lterm);
        assert forall|a: int|
            0 <= a < matched_idxs(sites, lterm).len() implies 0 <= #[trigger] matched_idxs(
            sites,
            lterm,
        )[a] < sites.len() by {
            if site_matches(sites.last(), lterm) {
                assert(matched_idxs(sites, lterm) == prev.push(sites.len() - 1));
                if a < prev.len() {
                    assert(matched_idxs(sites, lterm)[a] == prev[a]);
                }
            } else {
                assert(matched_idxs(sites, lterm) == prev);
            }
        }
    }
}

/// A sequence of `n` distinct values drawn from `0 .. n` holds every
/// one of them.
proof fn lemma_distinct_bounded_complete(s: Seq<int>, n: int)
    requires
        s.len() == n,
        forall|a: int| 0 <= a < s.len() ==> 0 <= #[trigger] s[a] < n,
        forall|a: int, b: int| 0 <= a < b < s.len() ==> s[a] != s[b],
    ensures
        forall|v: int| 0 <= v < n ==> #[trigger] s.contains(v),
{
    assert(s.no_duplicates());
    s.unique_seq_to_set();
    let rng = set_int_range(0, n);
    lemma_int_range(0, n);
    assert(s.to_set().subset_of(rng)) by {
        assert forall|v: int| s.to_set().contains(v) implies rng.contains(v) by {
            let a = choose|a: int| 0 <= a < s.len() && s[a] == v;
            assert(0 <= s[a] < n);
        }
    }
    assert forall|v: int| 0 <= v < n implies #[trigger] s.contains(v) by {
        if !s.to_set().contains(v) {
            s.to_set().lemma_subset_not_in_lt(rng, v);
            assert(false);
        }
    }
}

/// A sequence of distinct values drawn from `0 .. n` that reaches every
/// one of them has length exactly `n`.
proof fn lemma_distinct_complete_len(s: Seq<int>, n: int)
    requires
        n >= 0,
        forall|a: int| 0 <= a < s.len() ==> 0 <= #[trigger] s[a] < n,
        forall|a: int, b: int| 0 <= a < b < s.len() ==> s[a] != s[b],
        forall|v: int| 0 <= v < n ==> #[trigger] s.contains(v),
    ensures
        s.len() == n,
{
    assert(s.no_duplicates());
    s.unique_seq_to_set();
    let rng = set_int_range(0, n);
    lemma_int_range(0, n);
    assert(s.to_set().subset_of(rng)) by {
        assert forall|v: int| s.to_set().contains(v) implies rng.contains(v) by {
            let a = choose|a: int| 0 <= a < s.len() && s[a] == v;
            assert(0 <= s[a] < n);
        }
    }
    assert(rng.subset_of(s.to_set())) by {
        assert forall|v: int| rng.contains(v) implies s.to_set().contains(v) by {
            assert(s.contains(v));
        }
    }
    lemma_len_subset(s.to_set(), rng);
    lemma_len_subset(rng, s.to_set());
}

/// The distinct match positions that a record's connections reach, in
/// first-appearance order: each connection is looked up in the matched
/// key list and kept once.
pub open spec fn target_positions(conns: Seq<SiteKey>, keys: Seq<SiteKey>) -> Seq<int>
    decreases conns.len(),
{
    if conns.len() == 0 {
        Seq::empty()
    } else {
        let prev = target_positions(conns.drop_last(), keys);
        match first_pos(keys, conns.last().spec_idx(), 0) {
            Some(p) => if prev.contains(p as int) {
                prev
            } else {
                prev.push(p as int)
            },
            None => prev,
        }
    }
}

/// The match subgraph that a query builds: one node per matched
/// document in match order, self-looping placeholder nodes up to the
/// capacity, and each matched node connected uniformly to the matched
/// documents it links to, with a forced self reference when it links
/// to none of them.
pub open spec fn is_query_graph(
    g: ConnectionGraph<Option<SiteKey>>,
    sites: Seq<SiteLog>,
    keys: Seq<SiteKey>,
    capacity: int,
) -> bool {
    &&& g.spec_len() == capacity
    &&& (forall|k: int|
        0 <= k < keys.len() ==> (#[trigger] g.spec_item(k)) == Some(keys[k]))
    &&& (forall|k: int|
        keys.len() <= k < capacity ==> (#[trigger] g.spec_item(k)) == None::<SiteKey>)
    &&& (forall|k: int|
        keys.len() <= k < capacity ==> (#[trigger] g.spec_edges(k)).len() == 1 && g.spec_edges(
            k,
        )[0].0.spec_idx() == k && g.spec_edges(k)[0].1 == norm_rat(1, 1))
    &&& (forall|k: int| 0 <= k < keys.len() ==> #[trigger] query_edges_ok(g, sites, keys, k))
}

/// The edges of matched node `k`: one per distinct matched target (or
/// a forced self reference), each weighted by the reduced uniform
/// share.
pub open spec fn query_edges_ok(
    g: ConnectionGraph<Option<SiteKey>>,
    sites: Seq<SiteLog>,
    keys: Seq<SiteKey>,
    k: int,
) -> bool {
    let tps = target_positions(sites[keys[k].spec_idx()].connections@, keys);
    let tgts = if tps.len() == 0 {
        seq![k]
    } else {
        tps
    };
    &&& g.spec_edges(k).len() == tgts.len()
    &&& (forall|e: int|
        0 <= e < tgts.len() ==> (#[trigger] g.spec_edges(k)[e]).0.spec_idx() == tgts[e]
            && g.spec_edges(k)[e].1 == norm_rat(1, tgts.len() as int))
}

/// Is `ord` the order in which the truncated match set `tr` (indices
/// into `sites`) appears in the result list `out`?  Each matched
/// document appears exactly once.
pub open spec fn is_result_order(
    out: Seq<SiteLog>,
    sites: Seq<SiteLog>,
    tr: Seq<int>,
    ord: Seq<int>,
) -> bool {
    &&& ord.len() == out.len()
    &&& forall|j: int| 0 <= j < ord.len() ==> 0 <= #[trigger] ord[j] < tr.len()
    &&& forall|j1: int, j2: int| 0 <= j1 < j2 < ord.len() ==> ord[j1] != ord[j2]
    &&& forall|j: int| 0 <= j < ord.len() ==> site_eq(#[trigger] out[j], sites[tr[ord[j]]])
}

/// A sequence of distinct values drawn from `0 .. n` is no longer
/// than `n`.
proof fn lemma_distinct_bounded_len(s: Seq<int>, n: int)
    requires
        n >= 0,
        forall|a: int| 0 <= a < s.len() ==> 0 <= #[trigger] s[a] < n,
        forall|a: int, b: int| 0 <= a < b < s.len() ==> s[a] != s[b],
    ensures
        s.len() <= n,
{
    assert(s.no_duplicates());
    s.unique_seq_to_set();
    let rng = set_int_range(0, n);
    lemma_int_range(0, n);
    assert(s.to_set().subset_of(rng)) by {
        assert forall|v: int| s.to_set().contains(v) implies rng.contains(v) by {
            let a = choose|a: int| 0 <= a < s.len() && s[a] == v;
            assert(0 <= s[a] < n);
        }
    }
    lemma_len_subset(s.to_set(), rng);
}

/// The match keys and subgraph a query builds over this registry.
pub open spec fn query_graph_for(
    g: ConnectionGraph<Option<SiteKey>>,
    keys: Seq<SiteKey>,
    sites: Seq<SiteLog>,
    lterm: Seq<char>,
    capacity: int,
) -> bool {
    let tr = truncated_matches(sites, lterm, capacity);
    &&& keys.len() == tr.len()
    &&& (forall|k: int| 0 <= k < keys.len() ==> (#[trigger] keys[k]).spec_idx() == tr[k])
    &&& is_query_graph(g, sites, keys, capacity)
}

/// Everything a successful search certifies: the results are the
/// truncated match set in the order `ord`, and `ord` descends by an
/// exact stationary distribution `p` of the query's match subgraph,
/// ties broken by match position.
pub open spec fn search_evidence(
    out: Seq<SiteLog>,
    sites: Seq<SiteLog>,
    lterm: Seq<char>,
    capacity: int,
    ord: Seq<int>,
    g: ConnectionGraph<Option<SiteKey>>,
    keys: Seq<SiteKey>,
    p: Seq<Rat>,
) -> bool {
    let tr = truncated_matches(sites, lterm, capacity);
    &&& is_result_order(out, sites, tr, ord)
    &&& query_graph_for(g, keys, sites, lterm, capacity)
    &&& p.len() == capacity
    &&& vec_wf(p)
    &&& is_prob_dist(p)
    &&& is_rank_vector(g, capacity, p)
    &&& (forall|a: int, b: int|
        0 <= a < b < out.len() ==> rat_lt(p[ord[b]], p[ord[a]]) || (rat_eq(p[ord[a]], p[ord[b]])
            && ord[a] < ord[b]))
}

/// A successful search is justified: some order, match subgraph and
/// stationary distribution certify the results.
pub open spec fn search_justified(
    out: Seq<SiteLog>,
    sites: Seq<SiteLog>,
    lterm: Seq<char>,
    capacity: int,
) -> bool {
    exists|ord: Seq<int>, g: ConnectionGraph<Option<SiteKey>>, keys: Seq<SiteKey>, p: Seq<Rat>|
        #[trigger] search_evidence(out, sites, lterm, capacity, ord, g, keys, p)
}

/// A failed search (other than an empty match set) is justified: the
/// query's match subgraph exhibits one of the rank-failure causes.
pub open spec fn search_failure_justified(sites: Seq<SiteLog>, lterm: Seq<char>, capacity: int) -> bool {
    exists|g: ConnectionGraph<Option<SiteKey>>, keys: Seq<SiteKey>|
        #[trigger] query_graph_for(g, keys, sites, lterm, capacity) && rank_failure(g, capacity)
}

/// Ranks documents of a registry against query terms.
pub struct PageRanker {
    sites: Vec<SiteLog>,
}

impl PageRanker {
    /// The registry the ranker owns.
    pub closed spec fn spec_sites(self) -> Seq<SiteLog> {
        self.sites@
    }

    /// Every connection of every record points into the registry.
    pub open spec fn wf(self) -> bool {
        registry_wf(self.spec_sites())
    }

    /// Takes ownership of a finalized document registry.
    pub fn from_registry(sites: Vec<SiteLog>) -> (r: PageRanker)
        ensures
            r.spec_sites() == sites@,
    {
        PageRanker { sites }
    }

    /// The keys of the documents whose titles contain the query term,
    /// case-insensitively, in registry order, cut to the first
    /// `capacity` matches.
    fn reduce_registry_by_term(&self, term: &str, capacity: usize) -> (r: Vec<SiteKey>)
        ensures
            ({
                let tr = truncated_matches(self.spec_sites(), lower_of(term@), capacity as int);
                &&& r@.len() == tr.len()
                &&& forall|a: int| 0 <= a < r@.len() ==> (#[trigger] r@[a]).spec_idx() == tr[a]
                &&& forall|a: int|
                    0 <= a < r@.len() ==> 0 <= (#[trigger] r@[a]).spec_idx()
                        < self.spec_sites().len()
            }),
    {
        let ghost lterm = lower_of(term@);
        let lterm_s = lowercase(term);
        let mut out: Vec<SiteKey> = Vec::new();
        let mut i: usize = 0;
        while i < self.sites.len()
            invariant
                0 <= i <= self.spec_sites().len(),
                lterm_s@ == lterm,
                out@.len() == matched_idxs(self.spec_sites().take(i as int), lterm).len(),
                forall|a: int|
                    0 <= a < out@.len() ==> (#[trigger] out@[a]).spec_idx() == matched_idxs(
                        self.spec_sites().take(i as int),
                        lterm,
                    )[a],
            decreases self.spec_sites().len() - i,
        {
            let ghost pre = self.spec_sites().take(i as int);
            let ghost post = self.spec_sites().take(i + 1 as int);
            proof {
                assert(post.drop_last() =~= pre);
                assert(post.last() == self.spec_sites()[i as int]);
            }
            let site = &self.sites[i];
            let ltitle = lowercase(site.title.as_str());
            if contains_seq(ltitle.as_str(), lterm_s.as_str()) {
                out.push(SiteKey::new(i));
            }
            i = i + 1;
        }
        proof {
            assert(self.spec_sites().take(self.spec_sites().len() as int) =~= self.spec_sites());
            lemma_matched_bounds(self.spec_sites(), lterm);
        }
        if out.len() > capacity {
            out.truncate(capacity);
        }
        out
    }

    /// Answers a query: the documents whose titles contain the term,
    /// case-insensitively, each exactly once, ordered best to worst by
    /// an exact stationary distribution of the match subgraph's damped
    /// walk (`search_justified`).  Reports `EmptyMatchSet` exactly when
    /// no title matches; any other failure exhibits a concrete
    /// rank-failure cause of that same subgraph
    /// (`search_failure_justified`).
    pub fn search(&self, term: &str, capacity: usize) -> (r: Result<Vec<SiteLog>, RankError>)
        requires
            self.wf(),
            1 <= capacity,
            20 * (capacity as int) <= i64::MAX as int,
        ensures
            r == Err::<Vec<SiteLog>, RankError>(RankError::EmptyMatchSet) <==> matched_idxs(
                self.spec_sites(),
                lower_of(term@),
            ).len() == 0,
            r matches Ok(out) ==> ({
                let tr = truncated_matches(self.spec_sites(), lower_of(term@), capacity as int);
                &&& out@.len() == tr.len()
                &&& exists|ord: Seq<int>|
                    #[trigger] is_result_order(out@, self.spec_sites(), tr, ord)
            }),
            r matches Ok(out) ==> search_justified(
                out@,
                self.spec_sites(),
                lower_of(term@),
                capacity as int,
            ),
            r is Err && r != Err::<Vec<SiteLog>, RankError>(RankError::EmptyMatchSet)
                ==> search_failure_justified(
                self.spec_sites(),
                lower_of(term@),
                capacity as int,
            ),
            r is Err ==> {
                ||| r == Err::<Vec<SiteLog>, RankError>(RankError::EmptyMatchSet)
                ||| r == Err::<Vec<SiteLog>, RankError>(RankError::NotColumnStochastic)
                ||| r == Err::<Vec<SiteLog>, RankError>(RankError::NumericOverflow)
                ||| r == Err::<Vec<SiteLog>, RankError>(RankError::ConvergenceFailure)
            },
    {
        let ghost lterm = lower_of(term@);
        let ghost tr = truncated_matches(self.spec_sites(), lterm, capacity as int);
        let within_term = self.reduce_registry_by_term(term, capacity);
        if within_term.len() == 0 {
            return Err(RankError::EmptyMatchSet);
        }
        let nmatched = within_term.len();
        proof {
            assert(nmatched == tr.len());
            assert(matched_idxs(self.spec_sites(), lterm).len() > 0);
        }
        let mut graph: ConnectionGraph<Option<SiteKey>> = ConnectionGraph::new();
        let mut i: usize = 0;
        while i < nmatched
            invariant
                0 <= i <= nmatched,
                nmatched == within_term@.len(),
                nmatched <= capacity,
                graph.spec_len() == i,
                graph.wf(),
                forall|k: int|
                    0 <= k < i ==> #[trigger] graph.spec_item(k) == Some(within_term@[k]),
                forall|k: int| 0 <= k < i ==> (#[trigger] graph.spec_edges(k)).len() == 0,
            decreases nmatched - i,
        {
            let gk = graph.register();
            graph.set_val(gk, Some(within_term[i]));
            i = i + 1;
        }
        let one = Rat::one();
        let mut d: usize = nmatched;
        while d < capacity
            invariant
                nmatched <= d <= capacity,
                nmatched == within_term@.len(),
                graph.spec_len() == d,
                graph.wf(),
                forall|k: int|
                    0 <= k < nmatched ==> #[trigger] graph.spec_item(k) == Some(within_term@[k]),
                forall|k: int|
                    nmatched <= k < d ==> #[trigger] graph.spec_item(k) == None::<SiteKey>,
                forall|k: int| 0 <= k < nmatched ==> (#[trigger] graph.spec_edges(k)).len() == 0,
                forall|k: int|
                    nmatched <= k < d ==> (#[trigger] graph.spec_edges(k)).len() == 1
                        && graph.spec_edges(k)[0].0.spec_idx() == k && graph.spec_edges(k)[0].1
                        == norm_rat(1, 1),
                one.wf(),
                one == norm_rat(1, 1),
            decreases capacity - d,
        {
            let gk = graph.register();
            graph.set_val(gk, None);
            graph.connect(gk, gk, one);
            d = d + 1;
        }
        let mut s: usize = 0;
        while s < nmatched
            invariant
                0 <= s <= nmatched,
                nmatched == within_term@.len(),
                nmatched <= capacity,
                self.wf(),
                graph.spec_len() == capacity,
                graph.wf(),
                forall|k: int|
                    0 <= k < nmatched ==> #[trigger] graph.spec_item(k) == Some(within_term@[k]),
                forall|k: int|
                    nmatched <= k < capacity ==> #[trigger] graph.spec_item(k) == None::<SiteKey>,
                forall|a: int|
                    0 <= a < nmatched ==> 0 <= (#[trigger] within_term@[a]).spec_idx()
                        < self.spec_sites().len(),
                forall|k: int|
                    nmatched <= k < capacity ==> (#[trigger] graph.spec_edges(k)).len() == 1
                        && graph.spec_edges(k)[0].0.spec_idx() == k && graph.spec_edges(k)[0].1
                        == norm_rat(1, 1),
                forall|k: int|
                    s <= k < nmatched ==> (#[trigger] graph.spec_edges(k)).len() == 0,
                forall|k: int|
                    0 <= k < s ==> #[trigger] query_edges_ok(
                        graph,
                        self.spec_sites(),
                        within_term@,
                        k,
                    ),
                20 * (capacity as int) <= i64::MAX as int,
                lterm == lower_of(term@),
                nmatched == truncated_matches(self.spec_sites(), lterm, capacity as int).len(),
                matched_idxs(self.spec_sites(), lterm).len() > 0,
            decreases nmatched - s,
        {
            let skey = within_term[s];
            let site = &self.sites[skey.index()];
            let mut targets: Vec<usize> = Vec::new();
            let mut c: usize = 0;
            proof {
                assert(site.connections@.take(0) =~= Seq::<SiteKey>::empty());
            }
            while c < site.connections.len()
                invariant
                    0 <= c <= site.connections@.len(),
                    nmatched == within_term@.len(),
                    *site == self.spec_sites()[within_term@[s as int].spec_idx()],
                    s < nmatched,
                    forall|t: int|
                        0 <= t < targets@.len() ==> (#[trigger] targets@[t]) < nmatched,
                    targets@.len() == target_positions(
                        site.connections@.take(c as int),
                        within_term@,
                    ).len(),
                    forall|x: int|
                        0 <= x < targets@.len() ==> (#[trigger] targets@[x]) as int
                            == target_positions(
                            site.connections@.take(c as int),
                            within_term@,
                        )[x],
                    forall|x1: int, x2: int|
                        0 <= x1 < x2 < targets@.len() ==> targets@[x1] != targets@[x2],
                decreases site.connections@.len() - c,
            {
                let ck = site.connections[c];
                let ghost pre = target_positions(site.connections@.take(c as int), within_term@);
                let ghost post = target_positions(site.connections@.take(c + 1), within_term@);
                proof {
                    assert(site.connections@.take(c + 1).drop_last() =~= site.connections@.take(
                        c as int,
                    ));
                    assert(site.connections@.take(c + 1).last() == site.connections@[c as int]);
                }
                match find_position(&within_term, ck) {
                    Some(p) => {
                        if !contains_usize(&targets, p) {
                            proof {
                                if pre.contains(p as int) {
                                    let x = choose|x: int| 0 <= x < pre.len() && pre[x] == p as int;
                                    assert(targets@[x] as int == p as int);
                                    assert(targets@[x] == p);
                                    assert(targets@.contains(p));
                                    assert(false);
                                }
                                assert(post == pre.push(p as int));
                            }
                            targets.push(p);
                        } else {
                            proof {
                                let x = choose|x: int|
                                    0 <= x < targets@.len() && targets@[x] == p;
                                assert(pre[x] == p as int);
                                assert(pre.contains(p as int));
                                assert(post == pre);
                            }
                        }
                    },
                    None => {
                        proof {
                            assert(post == pre);
                        }
                    },
                }
                c = c + 1;
            }
            let ghost tps = target_positions(
                self.spec_sites()[within_term@[s as int].spec_idx()].connections@,
                within_term@,
            );
            proof {
                assert(site.connections@.take(site.connections@.len() as int)
                    =~= site.connections@);
            }
            if targets.len() == 0 {
                // a matched document with no matched outgoing link keeps
                // its walkers: force the self reference
                targets.push(s);
            }
            let ghost tgts = if tps.len() == 0 {
                seq![s as int]
            } else {
                tps
            };
            proof {
                assert(targets@.len() == tgts.len());
                assert(forall|x: int|
                    0 <= x < targets@.len() ==> (#[trigger] targets@[x]) as int == tgts[x]);
            }
            let tlen = targets.len();
            if tlen > capacity {
                proof {
                    let ti = Seq::new(targets@.len() as nat, |x: int| targets@[x] as int);
                    assert forall|x1: int, x2: int|
                        0 <= x1 < x2 < ti.len() implies ti[x1] != ti[x2] by {
                        assert(targets@[x1] != targets@[x2]);
                    }
                    lemma_distinct_bounded_len(ti, nmatched as int);
                    assert(false);
                }
                return Err(RankError::NumericOverflow);
            }
            let prob = match Rat::new(1, tlen as i64) {
                Some(p) => p,
                None => {
                    proof {
                        assert(false);
                    }
                    return Err(RankError::NumericOverflow);
                },
            };
            proof {
                assert(prob == norm_rat(1, tlen as int));
            }
            let key_s = graph.key_for(s);
            let mut t: usize = 0;
            while t < targets.len()
                invariant
                    0 <= t <= targets@.len(),
                    s < nmatched,
                    nmatched == within_term@.len(),
                    nmatched <= capacity,
                    self.wf(),
                    graph.spec_len() == capacity,
                    graph.wf(),
                    key_s.spec_idx() == s,
                    prob.wf(),
                    prob == norm_rat(1, tlen as int),
                    tlen == targets@.len(),
                    tlen as int == tgts.len(),
                    tgts == (if tps.len() == 0 {
                        seq![s as int]
                    } else {
                        tps
                    }),
                    tps == target_positions(
                        self.spec_sites()[within_term@[s as int].spec_idx()].connections@,
                        within_term@,
                    ),
                    forall|a: int|
                        0 <= a < nmatched ==> 0 <= (#[trigger] within_term@[a]).spec_idx()
                            < self.spec_sites().len(),
                    forall|x: int|
                        0 <= x < targets@.len() ==> (#[trigger] targets@[x]) < nmatched,
                    forall|x: int|
                        0 <= x < targets@.len() ==> (#[trigger] targets@[x]) as int == tgts[x],
                    forall|k: int|
                        0 <= k < nmatched ==> #[trigger] graph.spec_item(k) == Some(
                            within_term@[k],
                        ),
                    forall|k: int|
                        nmatched <= k < capacity ==> #[trigger] graph.spec_item(k)
                            == None::<SiteKey>,
                    forall|k: int|
                        nmatched <= k < capacity ==> (#[trigger] graph.spec_edges(k)).len() == 1
                            && graph.spec_edges(k)[0].0.spec_idx() == k && graph.spec_edges(
                            k,
                        )[0].1 == norm_rat(1, 1),
                    forall|k: int|
                        s < k < nmatched ==> (#[trigger] graph.spec_edges(k)).len() == 0,
                    forall|k: int|
                        0 <= k < s ==> #[trigger] query_edges_ok(
                            graph,
                            self.spec_sites(),
                            within_term@,
                            k,
                        ),
                    graph.spec_edges(s as int).len() == t as int,
                    forall|e: int|
                        0 <= e < t ==> (#[trigger] graph.spec_edges(s as int)[e]).0.spec_idx()
                            == tgts[e] && graph.spec_edges(s as int)[e].1 == prob,
                decreases targets@.len() - t,
            {
                let key_t = graph.key_for(targets[t]);
                let ghost gpre = graph;
                graph.connect(key_s, key_t, prob);
                proof {
                    assert forall|k: int|
                        0 <= k < s implies #[trigger] query_edges_ok(
                        graph,
                        self.spec_sites(),
                        within_term@,
                        k,
                    ) by {
                        assert(graph.spec_edges(k) == gpre.spec_edges(k));
                        assert(query_edges_ok(gpre, self.spec_sites(), within_term@, k));
                    }
                }
                t = t + 1;
            }
            proof {
                assert(query_edges_ok(graph, self.spec_sites(), within_term@, s as int));
            }
            s = s + 1;
        }
        proof {
            assert(is_query_graph(graph, self.spec_sites(), within_term@, capacity as int));
            assert(query_graph_for(
                graph,
                within_term@,
                self.spec_sites(),
                lower_of(term@),
                capacity as int,
            ));
        }
        let rankings = match graph.get_rankings(capacity) {
            Ok(ks) => ks,
            Err(e) => {
                proof {
                    assert(rank_failure(graph, capacity as int));
                    assert(e != RankError::EmptyMatchSet);
                    assert(search_failure_justified(
                        self.spec_sites(),
                        lower_of(term@),
                        capacity as int,
                    ));
                }
                return Err(e);
            },
        };
        let mut out: Vec<SiteLog> = Vec::new();
        let ghost mut ord: Seq<int> = Seq::empty();
        let ghost mut gsrc: Seq<int> = Seq::empty();
        let mut gi: usize = 0;
        while gi < rankings.len()
            invariant
                0 <= gi <= rankings@.len(),
                rankings@.len() == capacity,
                nmatched == within_term@.len(),
                1 <= nmatched <= capacity,
                self.wf(),
                graph.spec_len() == capacity,
                forall|k: int|
                    0 <= k < nmatched ==> #[trigger] graph.spec_item(k) == Some(within_term@[k]),
                forall|k: int|
                    nmatched <= k < capacity ==> #[trigger] graph.spec_item(k) == None::<SiteKey>,
                forall|a: int|
                    0 <= a < nmatched ==> 0 <= (#[trigger] within_term@[a]).spec_idx()
                        < self.spec_sites().len(),
                forall|a: int|
                    0 <= a < capacity ==> 0 <= (#[trigger] rankings@[a]).spec_idx() < capacity,
                forall|a: int, b: int|
                    0 <= a < b < capacity ==> rankings@[a].spec_idx() != rankings@[b].spec_idx(),
                out@.len() == ord.len(),
                ord.len() == gsrc.len(),
                forall|j: int| 0 <= j < gsrc.len() ==> 0 <= #[trigger] gsrc[j] < gi,
                forall|j1: int, j2: int| 0 <= j1 < j2 < gsrc.len() ==> gsrc[j1] < gsrc[j2],
                forall|j: int|
                    0 <= j < ord.len() ==> #[trigger] ord[j] == rankings@[gsrc[j]].spec_idx() && 0
                        <= ord[j] < nmatched,
                forall|j: int|
                    0 <= j < ord.len() ==> site_eq(
                        #[trigger] out@[j],
                        self.spec_sites()[within_term@[ord[j]].spec_idx()],
                    ),
                forall|g: int|
                    0 <= g < gi && 0 <= (#[trigger] rankings@[g]).spec_idx() < nmatched
                        ==> ord.contains(rankings@[g].spec_idx()),
            decreases rankings@.len() - gi,
        {
            let key = rankings[gi];
            match graph.get_val(key) {
                Some(skey) => {
                    let sk = *skey;
                    out.push(clone_site(&self.sites[sk.index()]));
                    proof {
                        let ord0 = ord;
                        ord = ord.push(key.spec_idx());
                        gsrc = gsrc.push(gi as int);
                        assert(ord.last() == key.spec_idx());
                        assert(ord.contains(key.spec_idx()));
                        assert forall|w: int| ord0.contains(w) implies ord.contains(w) by {
                            let j = choose|j: int| 0 <= j < ord0.len() && ord0[j] == w;
                            assert(ord[j] == w);
                        }
                    }
                },
                None => {
                    proof {
                        assert(key.spec_idx() < nmatched ==> graph.spec_item(key.spec_idx())
                            == Some(within_term@[key.spec_idx()]));
                    }
                },
            }
            gi = gi + 1;
        }
        proof {
            assert forall|j1: int, j2: int| 0 <= j1 < j2 < ord.len() implies ord[j1] != ord[j2] by {
                assert(rankings@[gsrc[j1]].spec_idx() != rankings@[gsrc[j2]].spec_idx());
            }
            let ridx = Seq::new(rankings@.len(), |g: int| rankings@[g].spec_idx());
            assert forall|a: int, b: int| 0 <= a < b < ridx.len() implies ridx[a] != ridx[b] by {
                assert(rankings@[a].spec_idx() != rankings@[b].spec_idx());
            }
            lemma_distinct_bounded_complete(ridx, capacity as int);
            assert forall|w: int| 0 <= w < nmatched implies #[trigger] ord.contains(w) by {
                assert(ridx.contains(w));
                let g = choose|g: int| 0 <= g < ridx.len() && ridx[g] == w;
                assert(rankings@[g].spec_idx() == w);
            }
            lemma_distinct_complete_len(ord, nmatched as int);
            assert(tr.len() == nmatched);
            assert forall|j: int| 0 <= j < ord.len() implies site_eq(
                #[trigger] out@[j],
                self.spec_sites()[tr[ord[j]]],
            ) by {
                assert(within_term@[ord[j]].spec_idx() == tr[ord[j]]);
            }
            assert(is_result_order(out@, self.spec_sites(), tr, ord));
            let p = choose|p: Seq<Rat>|
                {
                    &&& p.len() == capacity
                    &&& vec_wf(p)
                    &&& is_prob_dist(p)
                    &&& #[trigger] is_rank_vector(graph, capacity as int, p)
                    &&& forall|a: int, b: int|
                        0 <= a < b < rankings@.len() ==> rat_lt(
                            p[rankings@[b].spec_idx()],
                            p[rankings@[a].spec_idx()],
                        ) || (rat_eq(p[rankings@[a].spec_idx()], p[rankings@[b].spec_idx()])
                            && rankings@[a].spec_idx() < rankings@[b].spec_idx())
                };
            assert forall|a: int, b: int|
                0 <= a < b < out@.len() implies rat_lt(p[ord[b]], p[ord[a]]) || (rat_eq(
                p[ord[a]],
                p[ord[b]],
            ) && ord[a] < ord[b]) by {
                let ga = gsrc[a];
                let gb = gsrc[b];
                assert(0 <= ga < gb < rankings@.len());
                assert(ord[a] == rankings@[ga].spec_idx());
                assert(ord[b] == rankings@[gb].spec_idx());
            }
            assert(search_evidence(
                out@,
                self.spec_sites(),
                lower_of(term@),
                capacity as int,
                ord,
                graph,
                within_term@,
                p,
            ));
            assert(search_justified(
                out@,
                self.spec_sites(),
                lower_of(term@),
                capacity as int,
            ));
        }
        Ok(out)
    }
}

/// The position of the first key with this index in the list, if any.
fn find_position(keys: &Vec<SiteKey>, target: SiteKey) -> (r: Option<usize>)
    ensures
        r == first_pos(keys@, target.spec_idx(), 0),
        r matches Some(p) ==> p < keys@.len() && keys@[p as int].spec_idx() == target.spec_idx(),
{
    let mut i: usize = 0;
    while i < keys.len()
        invariant
            0 <= i <= keys@.len(),
            first_pos(keys@, target.spec_idx(), 0) == first_pos(keys@, target.spec_idx(), i as int),
        decreases keys@.len() - i,
    {
        if keys[i].index() == target.index() {
            return Some(i);
        }
        i = i + 1;
    }
    None
}

/// The position of the first key from `from` on that names index
/// `idx`.
pub open spec fn first_pos(keys: Seq<SiteKey>, idx: int, from: int) -> Option<usize>
    decreases keys.len() - from,
{
    if from < 0 || from >= keys.len() {
        None
    } else if keys[from].spec_idx() == idx {
        Some(from as usize)
    } else {
        first_pos(keys, idx, from + 1)
    }
}

/// Does the list hold the value?
fn contains_usize(v: &Vec<usize>, x: usize) -> (r: bool)
    ensures
        r == v@.contains(x),
{
    let mut i: usize = 0;
    while i < v.len()
        invariant
            0 <= i <= v@.len(),
            forall|j: int| 0 <= j < i ==> v@[j] != x,
        decreases v@.len() - i,
    {
        if v[i] == x {
            return true;
        }
        i = i + 1;
    }
    proof {
        assert(!v@.contains(x));
    }
    false
}

} // verus!
