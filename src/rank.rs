//! Ranking the candidates of a query and keeping the best ones.

use std::collections::HashMap;
use vstd::prelude::*;
use vstd::std_specs::iter::IteratorSpec;
use crate::aggregate::{cache_consistent, candidates_spec, counts_view};
use crate::cache::MatchCache;
use crate::trie::Trie;
use crate::word::WordMap;
use crate::document::DocumentMap;
use crate::word::NotFound;
use crate::record::{highlighted_spec, similarity_spec, Record};
use crate::text::{normalize, normalize_spec, views};

verus! {

broadcast use vstd::std_specs::hash::group_hash_axioms;

/// The documents of `m`, each once.
fn candidate_ids(m: &HashMap<u32, (usize, usize)>) -> (r: Vec<u32>)
    ensures
        r@.no_duplicates(),
        forall|d: u32| m@.contains_key(d) <==> r@.contains(d),
{
    let mut r: Vec<u32> = Vec::new();
    for d in it: m.keys()
        invariant
            it.seq().unref().to_set() == m@.dom(),
            it.seq().no_duplicates(),
            r@ == it.seq().take(it.index() as int).unref(),
            r@.no_duplicates(),
            it.index() == it.seq().len() ==> r@.to_set() == m@.dom(),
    {
        assert(it.seq().take(it.index() + 1) == it.seq().take(it.index() as int).push(d));
        r.push(*d);
        proof {
            assert(it.seq().take(it.seq().len() as int) == it.seq());
            assert(r@ == it.seq().take(it.index() + 1).unref());
            assert(it.index() + 1 == it.seq().len() ==> r@ == it.seq().unref());
            assert(it.index() + 1 == it.seq().len() ==> r@.to_set() == m@.dom());
            assert forall|a: int, b: int| 0 <= a < b < r@.len() implies r@[a] != r@[b] by {
                assert(r@[a] == *it.seq()[a]);
                assert(r@[b] == *it.seq()[b]);
            }
        }
    }
    proof {
        assert forall|d: u32| m@.contains_key(d) <==> r@.contains(d) by {
            assert(r@.to_set().contains(d) <==> r@.contains(d));
        }
    }
    r
}


/// How many results a query returns at most.
pub const TOP_N: usize = 10;

/// A scored candidate: document id, exact matches, similarity.
pub type Scored = (u32, nat, u64);

/// `a` ranks before `b`: more exact matches, then a lower similarity, then
/// a lower document id.
pub open spec fn ranks_before(a: Scored, b: Scored) -> bool {
    a.1 > b.1 || (a.1 == b.1 && (a.2 < b.2 || (a.2 == b.2 && a.0 < b.0)))
}

/// The score of candidate `d` of `c` for the query tokens `q`.
pub open spec fn score_of(
    c: Map<u32, (nat, nat)>,
    store: Map<u32, String>,
    q: Seq<Seq<char>>,
    d: u32,
) -> Scored {
    (d, c[d].0, similarity_spec(q, store[d]@))
}

/// `d` ranks before every other candidate of `s`.
pub open spec fn is_first(
    c: Map<u32, (nat, nat)>,
    store: Map<u32, String>,
    q: Seq<Seq<char>>,
    s: Set<u32>,
    d: u32,
) -> bool {
    s.contains(d) && forall|e: u32|
        #[trigger] s.contains(e) && e != d ==> ranks_before(score_of(c, store, q, d), score_of(c, store, q, e))
}

/// The best `n` candidates of `s`, best first.
pub open spec fn ranked(
    c: Map<u32, (nat, nat)>,
    store: Map<u32, String>,
    q: Seq<Seq<char>>,
    s: Set<u32>,
    n: nat,
) -> Seq<u32>
    decreases n,
{
    if n > 0 && exists|d: u32| is_first(c, store, q, s, d) {
        let d = choose|d: u32| is_first(c, store, q, s, d);
        seq![d] + ranked(c, store, q, s.remove(d), (n - 1) as nat)
    } else {
        seq![]
    }
}

pub proof fn lemma_ranked_len(
    c: Map<u32, (nat, nat)>,
    store: Map<u32, String>,
    q: Seq<Seq<char>>,
    s: Set<u32>,
    n: nat,
)
    ensures
        ranked(c, store, q, s, n).len() <= n,
    decreases n,
{
    if n > 0 && exists|d: u32| is_first(c, store, q, s, d) {
        let d = choose|d: u32| is_first(c, store, q, s, d);
        lemma_ranked_len(c, store, q, s.remove(d), (n - 1) as nat);
    }
}

/// The results of a query, best first: the ranked candidates of `c` whose
/// document `store` holds.
pub open spec fn top_results(c: Map<u32, (nat, nat)>, store: Map<u32, String>, query: Seq<char>) -> Seq<u32> {
    ranked(
        c,
        store,
        normalize_spec(query),
        Set::new(|d: u32| c.contains_key(d) && store.contains_key(d)),
        TOP_N as nat,
    )
}

fn ranks_before_exec(a: (u32, usize, u64), b: (u32, usize, u64)) -> (r: bool)
    ensures
        r == ranks_before((a.0, a.1 as nat, a.2), (b.0, b.1 as nat, b.2)),
{
    a.1 > b.1 || (a.1 == b.1 && (a.2 < b.2 || (a.2 == b.2 && a.0 < b.0)))
}

impl DocumentMap {
    /// Ranks the candidates `similar_map` of `query` and returns the best
    /// `TOP_N`, best first, each as (highlighted text, text); `NotFound` when
    /// a candidate's document is not stored.
    pub fn sort_raw_result(&self, query: &str, similar_map: &HashMap<u32, (usize, usize)>) -> (r: Result<Vec<(String, String)>, NotFound>)
        ensures
            r is Err <==> exists|d: u32| similar_map@.contains_key(d) && !self@.contains_key(d),
            r matches Ok(v) ==> {
                &&& v@.len() <= TOP_N
                &&& v@.len() == (if TOP_N <= similar_map@.len() { TOP_N as nat } else { similar_map@.len() })
                &&& v@.len() == top_results(counts_view(similar_map@), self@, query@).len()
                &&& forall|i: int| 0 <= i < v@.len() ==> {
                    let d = #[trigger] top_results(counts_view(similar_map@), self@, query@)[i];
                    &&& v@[i].0@ == highlighted_spec(normalize_spec(query@), self@[d]@)
                    &&& v@[i].1@ == self@[d]@
                }
            },
    {
        let q = normalize(query);
        let ghost qv = views(q@);
        let ghost c = counts_view(similar_map@);
        let ghost store = self@;
        let ids = candidate_ids(similar_map);
        let mut sids: Vec<u32> = Vec::new();
        let mut scores: Vec<(u32, usize, u64)> = Vec::new();
        let mut texts: Vec<(String, String)> = Vec::new();
        let mut k: usize = 0;
        while k < ids.len()
            invariant
                k <= ids.len(),
                qv == views(q@),
                c == counts_view(similar_map@),
                store == self@,
                ids@.no_duplicates(),
                forall|d: u32| similar_map@.contains_key(d) <==> ids@.contains(d),
                scores@.len() == sids@.len(),
                texts@.len() == sids@.len(),
                sids@.no_duplicates(),
                forall|j: int| 0 <= j < k ==> store.contains_key(#[trigger] ids@[j]),
                forall|j: int| 0 <= j < sids@.len() ==> exists|m: int| 0 <= m < k && ids@[m] == #[trigger] sids@[j],
                forall|d: u32| (c.contains_key(d) && store.contains_key(d) && ids@.take(k as int).contains(d)) <==> sids@.contains(d),
                forall|j: int| 0 <= j < sids@.len() ==> (#[trigger] scores@[j]).0 == sids@[j]
                    && (scores@[j].0, scores@[j].1 as nat, scores@[j].2) == score_of(c, store, qv, sids@[j])
                    && texts@[j].0@ == highlighted_spec(qv, store[sids@[j]]@)
                    && texts@[j].1@ == store[sids@[j]]@,
            decreases ids.len() - k,
        {
            let d = ids[k];
            assert(ids@.contains(d)) by { assert(ids@[k as int] == d); }
            assert(ids@.take(k + 1) == ids@.take(k as int).push(d));
            let (e, o) = *similar_map.get(&d).unwrap();
            match self.get_text(d) {
                Ok(text) => {
                    let rec = Record::new(&q, text.as_str(), e, o);
                    let ghost sb = sids@;
                    let ghost scb = scores@;
                    let ghost tb = texts@;
                    proof {
                        assert(!sb.contains(d)) by {
                            if sb.contains(d) {
                                let j = choose|j: int| 0 <= j < sb.len() && sb[j] == d;
                                let m = choose|m: int| 0 <= m < k && ids@[m] == #[trigger] sb[j];
                                assert(ids@[m] == ids@[k as int]);
                            }
                        }
                    }
                    sids.push(d);
                    scores.push((d, e, rec.similarity));
                    texts.push((rec.updated_record, text.clone()));
                    proof {
                        assert(c.contains_key(d));
                        assert(store.contains_key(d));
                        assert(ids@.take(k + 1)[k as int] == d);
                        assert(ids@.take(k + 1).contains(d));
                        assert(sids@.contains(d)) by {
                            assert(sids@[sb.len() as int] == d);
                        }
                        assert(c[d].0 == e as nat);
                        assert forall|j: int| 0 <= j < sids@.len() implies (#[trigger] scores@[j]).0 == sids@[j]
                            && (scores@[j].0, scores@[j].1 as nat, scores@[j].2) == score_of(c, store, qv, sids@[j])
                            && texts@[j].0@ == highlighted_spec(qv, store[sids@[j]]@)
                            && texts@[j].1@ == store[sids@[j]]@ by {
                            if j < sb.len() {
                                assert(scores@[j] == scb[j]);
                                assert(texts@[j] == tb[j]);
                                assert(sids@[j] == sb[j]);
                            }
                        }
                        assert forall|j: int| 0 <= j < sids@.len() implies exists|m: int| 0 <= m < k + 1 && ids@[m] == #[trigger] sids@[j] by {
                            if j < sb.len() {
                                assert(sids@[j] == sb[j]);
                            } else {
                                assert(ids@[k as int] == sids@[j]);
                            }
                        }
                        assert forall|x: u32| (c.contains_key(x) && store.contains_key(x) && ids@.take(k + 1).contains(x)) <==> sids@.contains(x) by {
                            if sb.contains(x) {
                                let j = choose|j: int| 0 <= j < sb.len() && sb[j] == x;
                                assert(sids@[j] == x);
                            }
                            if sids@.contains(x) && x != d {
                                let j = choose|j: int| 0 <= j < sids@.len() && sids@[j] == x;
                                assert(sb[j] == x);
                            }
                            assert(sids@[sb.len() as int] == d);
                            if ids@.take(k + 1).contains(x) && x != d {
                                let j = choose|j: int| 0 <= j < k + 1 && #[trigger] ids@.take(k + 1)[j] == x;
                                assert(ids@.take(k as int)[j] == x);
                            }
                            if ids@.take(k as int).contains(x) {
                                let j = choose|j: int| 0 <= j < k && #[trigger] ids@.take(k as int)[j] == x;
                                assert(ids@.take(k + 1)[j] == x);
                            }
                        }
                    }
                },
                Err(e) => {
                    return Err(e);
                },
            }
            k += 1;
        }
        assert(ids@.take(ids.len() as int) == ids@);
        proof {
            assert forall|x: u32| !(similar_map@.contains_key(x) && !self@.contains_key(x)) by {
                if similar_map@.contains_key(x) {
                    assert(ids@.contains(x));
                    let j = choose|j: int| 0 <= j < ids@.len() && ids@[j] == x;
                    assert(store.contains_key(ids@[j]));
                }
            }
        }
        let mut taken: Vec<bool> = Vec::new();
        let mut k: usize = 0;
        while k < sids.len()
            invariant
                k <= sids.len(),
                taken@.len() == k,
                forall|j: int| 0 <= j < k ==> !(#[trigger] taken@[j]),
            decreases sids.len() - k,
        {
            taken.push(false);
            k += 1;
        }
        let ghost all = Set::new(|d: u32| c.contains_key(d) && store.contains_key(d));
        let ghost mut rem = all;
        proof {
            assert forall|d: u32| #[trigger] rem.contains(d) <==> exists|j: int| 0 <= j < sids@.len() && sids@[j] == d && !taken@[j] by {
                if rem.contains(d) {
                    assert(sids@.contains(d));
                    let j = choose|j: int| 0 <= j < sids@.len() && sids@[j] == d;
                    assert(!taken@[j]);
                }
                if exists|j: int| 0 <= j < sids@.len() && sids@[j] == d && !taken@[j] {
                    let j = choose|j: int| 0 <= j < sids@.len() && sids@[j] == d && !taken@[j];
                    assert(sids@.contains(d));
                }
            }
        }
        let ghost mut picked: Seq<u32> = seq![];
        let mut out: Vec<(String, String)> = Vec::new();
        let mut t: usize = 0;
        let mut done = false;
        while t < TOP_N && !done
            invariant
                t <= TOP_N,
                done ==> ranked(c, store, qv, rem, (TOP_N - t) as nat) == Seq::<u32>::empty(),
                sids@.no_duplicates(),
                taken@.len() == sids@.len(),
                scores@.len() == sids@.len(),
                texts@.len() == sids@.len(),
                c == counts_view(similar_map@),
                forall|d: u32| (c.contains_key(d) && store.contains_key(d)) <==> sids@.contains(d),
                forall|j: int| 0 <= j < sids@.len() ==> (#[trigger] scores@[j]).0 == sids@[j]
                    && (scores@[j].0, scores@[j].1 as nat, scores@[j].2) == score_of(c, store, qv, sids@[j])
                    && texts@[j].0@ == highlighted_spec(qv, store[sids@[j]]@)
                    && texts@[j].1@ == store[sids@[j]]@,
                forall|d: u32| #[trigger] rem.contains(d) <==> exists|j: int| 0 <= j < sids@.len() && sids@[j] == d && !taken@[j],
                ranked(c, store, qv, all, TOP_N as nat) == picked + ranked(c, store, qv, rem, (TOP_N - t) as nat),
                picked.len() == t,
                out@.len() == t,
                forall|i: int| 0 <= i < t ==> (#[trigger] out@[i]).0@ == highlighted_spec(qv, store[picked[i]]@) && out@[i].1@ == store[picked[i]]@,
            decreases TOP_N - t + (if done { 0int } else { 1int }),
        {
            let mut best: Option<usize> = None;
            let mut k: usize = 0;
            while k < sids.len()
                invariant
                    k <= sids.len(),
                    taken@.len() == sids@.len(),
                    scores@.len() == sids@.len(),
                    sids@.no_duplicates(),
                    forall|j: int| 0 <= j < sids@.len() ==> (#[trigger] scores@[j]).0 == sids@[j],
                    match best {
                        Some(b) => b < k && !taken@[b as int] && forall|j: int| 0 <= j < k && !taken@[j] && j != b ==> ranks_before(
                            (scores@[b as int].0, scores@[b as int].1 as nat, scores@[b as int].2),
                            (scores@[j].0, scores@[j].1 as nat, scores@[j].2),
                        ),
                        None => forall|j: int| 0 <= j < k ==> taken@[j],
                    },
                decreases sids.len() - k,
            {
                if !taken[k] {
                    match best {
                        None => {
                            best = Some(k);
                        },
                        Some(b) => {
                            assert(scores@[k as int].0 != scores@[b as int].0) by {
                                assert(sids@[k as int] != sids@[b as int]);
                            }
                            if ranks_before_exec(scores[k], scores[b]) {
                                best = Some(k);
                            }
                        },
                    }
                }
                k += 1;
            }
            match best {
                None => {
                    proof {
                        assert forall|d: u32| !is_first(c, store, qv, rem, d) by {
                            if rem.contains(d) {
                                let j = choose|j: int| 0 <= j < sids@.len() && sids@[j] == d && !taken@[j];
                            }
                        }
                        assert(ranked(c, store, qv, rem, (TOP_N - t) as nat) == Seq::<u32>::empty());
                    }
                    done = true;
                },
                Some(b) => {
                    let d = sids[b];
                    proof {
                        assert(rem.contains(d));
                        assert forall|e: u32| #[trigger] rem.contains(e) && e != d implies ranks_before(score_of(c, store, qv, d), score_of(c, store, qv, e)) by {
                            let j = choose|j: int| 0 <= j < sids@.len() && sids@[j] == e && !taken@[j];
                            assert(j != b);
                        }
                        assert(is_first(c, store, qv, rem, d));
                        let d2 = choose|d2: u32| is_first(c, store, qv, rem, d2);
                        if d2 != d {
                            assert(ranks_before(score_of(c, store, qv, d2), score_of(c, store, qv, d)));
                            assert(ranks_before(score_of(c, store, qv, d), score_of(c, store, qv, d2)));
                        }
                        assert(ranked(c, store, qv, rem, (TOP_N - t) as nat) == seq![d] + ranked(c, store, qv, rem.remove(d), (TOP_N - t - 1) as nat));
                        assert(picked + (seq![d] + ranked(c, store, qv, rem.remove(d), (TOP_N - t - 1) as nat)) == picked.push(d) + ranked(c, store, qv, rem.remove(d), (TOP_N - t - 1) as nat));
                    }
                    let ghost taken_before = taken@;
                    taken.set(b, true);
                    let ghost out_before = out@;
                    out.push((texts[b].0.clone(), texts[b].1.clone()));
                    proof {
                        assert forall|e: u32| #[trigger] rem.remove(d).contains(e) <==> exists|j: int| 0 <= j < sids@.len() && sids@[j] == e && !taken@[j] by {
                            if rem.remove(d).contains(e) {
                                let j = choose|j: int| 0 <= j < sids@.len() && sids@[j] == e && !taken_before[j];
                                assert(j != b);
                                assert(!taken@[j]);
                            }
                            if exists|j: int| 0 <= j < sids@.len() && sids@[j] == e && !taken@[j] {
                                let j = choose|j: int| 0 <= j < sids@.len() && sids@[j] == e && !taken@[j];
                                assert(j != b);
                                assert(!taken_before[j]);
                                assert(sids@[j] != sids@[b as int]);
                            }
                        }
                        rem = rem.remove(d);
                        picked = picked.push(d);
                        assert(out@.len() == t + 1);
                        assert forall|i: int| 0 <= i < t + 1 implies (#[trigger] out@[i]).0@ == highlighted_spec(qv, store[picked[i]]@) && out@[i].1@ == store[picked[i]]@ by {
                            if i < t {
                                assert(out@[i] == out_before[i]);
                            } else {
                                assert(scores@[b as int].0 == sids@[b as int]);
                                assert(picked[i] == sids@[b as int]);
                                assert(out@[i].0@ == texts@[b as int].0@);
                                assert(out@[i].1@ == texts@[b as int].1@);
                            }
                        }
                    }
                    t += 1;
                },
            }
        }
        proof {
            lemma_ranked_len(c, store, qv, all, TOP_N as nat);
            assert(all =~= similar_map@.dom()) by {
                assert forall|x: u32| all.contains(x) <==> similar_map@.dom().contains(x) by {
                    if similar_map@.contains_key(x) {
                        assert(!(similar_map@.contains_key(x) && !self@.contains_key(x)));
                    }
                }
            }
            lemma_ranked_len_exact(c, store, qv, all, TOP_N as nat);
            assert(ranked(c, store, qv, rem, (TOP_N - t) as nat) == Seq::<u32>::empty());
            assert(picked + Seq::<u32>::empty() == picked);
        }
        Ok(out)
    }
}


/// A candidate with more exact matches ranks above one with fewer,
/// whatever their similarities: whenever the second is among the results,
/// the first comes before it.
pub proof fn lemma_more_exact_ranks_first(
    c: Map<u32, (nat, nat)>,
    store: Map<u32, String>,
    q: Seq<Seq<char>>,
    s: Set<u32>,
    n: nat,
    a: u32,
    b: u32,
)
    requires
        s.contains(a),
        c[a].0 > c[b].0,
        ranked(c, store, q, s, n).contains(b),
    ensures
        exists|i: int, j: int|
            0 <= i < j < ranked(c, store, q, s, n).len() && ranked(c, store, q, s, n)[i] == a
                && ranked(c, store, q, s, n)[j] == b,
    decreases n,
{
    let r = ranked(c, store, q, s, n);
    let d = choose|d: u32| is_first(c, store, q, s, d);
    let tail = ranked(c, store, q, s.remove(d), (n - 1) as nat);
    assert(r == seq![d] + tail);
    if d == b {
        assert(ranks_before(score_of(c, store, q, b), score_of(c, store, q, a)));
    } else {
        assert(tail.contains(b)) by {
            let k = choose|k: int| 0 <= k < r.len() && r[k] == b;
            assert(tail[k - 1] == b);
        }
        if d == a {
            let k = choose|k: int| 0 <= k < tail.len() && tail[k] == b;
            assert(r[0] == a && r[k + 1] == b);
        } else {
            lemma_more_exact_ranks_first(c, store, q, s.remove(d), (n - 1) as nat, a, b);
            let (i, j) = choose|i: int, j: int| 0 <= i < j < tail.len() && tail[i] == a && tail[j] == b;
            assert(r[i + 1] == a && r[j + 1] == b);
        }
    }
}


/// The results of `query`, best first: at most `TOP_N` pairs of
/// (highlighted text, text); `NotFound` when a candidate's document is not
/// in `doc_map`. They depend on the index and the dictionary only, never on
/// what the cache holds.
pub fn search(
    trie: &Trie,
    word_map: &WordMap,
    doc_map: &DocumentMap,
    cache: &mut MatchCache,
    query: &str,
) -> (r: Result<Vec<(String, String)>, NotFound>)
    requires
        trie.wf(),
        word_map.wf(),
        cache_consistent(old(cache)@, trie@),
        old(cache).wf(),
    ensures
        final(cache).wf(),
        cache_consistent(final(cache)@, trie@),
        r is Err <==> exists|d: u32|
            candidates_spec(word_map@, trie@, normalize_spec(query@)).contains_key(d)
                && !doc_map@.contains_key(d),
        r matches Ok(v) ==> {
            let top = top_results(candidates_spec(word_map@, trie@, normalize_spec(query@)), doc_map@, query@);
            &&& v@.len() <= TOP_N
            &&& v@.len() == top.len()
            &&& forall|i: int| 0 <= i < v@.len() ==> {
                &&& v@[i].0@ == highlighted_spec(normalize_spec(query@), doc_map@[#[trigger] top[i]]@)
                &&& v@[i].1@ == doc_map@[top[i]]@
            }
        },
{
    let similar = trie.find_matches(query, word_map, cache);
    doc_map.sort_raw_result(query, &similar)
}


proof fn lemma_first_exists(
    c: Map<u32, (nat, nat)>,
    store: Map<u32, String>,
    q: Seq<Seq<char>>,
    s: Set<u32>,
)
    requires
        s.finite(),
        s.len() > 0,
    ensures
        exists|d: u32| is_first(c, store, q, s, d),
    decreases s.len(),
{
    let e = s.choose();
    assert(s.contains(e));
    let s2 = s.remove(e);
    if s2.len() == 0 {
        assert forall|x: u32| #[trigger] s.contains(x) && x != e implies ranks_before(
            score_of(c, store, q, e),
            score_of(c, store, q, x),
        ) by {
            assert(s2.contains(x));
        }
        assert(is_first(c, store, q, s, e));
    } else {
        lemma_first_exists(c, store, q, s2);
        let f = choose|f: u32| is_first(c, store, q, s2, f);
        if ranks_before(score_of(c, store, q, e), score_of(c, store, q, f)) {
            assert forall|x: u32| #[trigger] s.contains(x) && x != e implies ranks_before(
                score_of(c, store, q, e),
                score_of(c, store, q, x),
            ) by {
                if x != f {
                    assert(s2.contains(x));
                    assert(ranks_before(score_of(c, store, q, f), score_of(c, store, q, x)));
                }
            }
            assert(is_first(c, store, q, s, e));
        } else {
            assert(ranks_before(score_of(c, store, q, f), score_of(c, store, q, e)));
            assert forall|x: u32| #[trigger] s.contains(x) && x != f implies ranks_before(
                score_of(c, store, q, f),
                score_of(c, store, q, x),
            ) by {
                if x != e {
                    assert(s2.contains(x));
                }
            }
            assert(is_first(c, store, q, s, f));
        }
    }
}

/// Ranking a finite set of `k` candidates for the best `n` gives
/// `min(n, k)` of them.
pub proof fn lemma_ranked_len_exact(
    c: Map<u32, (nat, nat)>,
    store: Map<u32, String>,
    q: Seq<Seq<char>>,
    s: Set<u32>,
    n: nat,
)
    requires
        s.finite(),
    ensures
        ranked(c, store, q, s, n).len() == if n <= s.len() { n } else { s.len() },
    decreases n,
{
    if n > 0 && s.len() > 0 {
        lemma_first_exists(c, store, q, s);
        let d = choose|d: u32| is_first(c, store, q, s, d);
        lemma_ranked_len_exact(c, store, q, s.remove(d), (n - 1) as nat);
    } else if n > 0 {
        assert forall|d: u32| !is_first(c, store, q, s, d) by {
            if s.contains(d) {
                assert(s.len() > 0);
            }
        }
    }
}

} // verus!
