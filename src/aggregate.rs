//! Candidate aggregation: the fuzzy matches of each query token, resolved to
//! postings, deduplicated and intersected across tokens.

use std::collections::{HashMap, HashSet};
use vstd::prelude::*;
use crate::cache::{insert_into_cache, retrieve_from_cache, MatchCache};
use crate::document::postings_of;
use crate::text::{normalize, normalize_spec, views};
use crate::trie::{allowed_errors, fuzzy_spec, match_views, nr_allowed_errors, Trie};
use crate::word::{Word, WordInRecord, WordMap};

verus! {

broadcast use vstd::std_specs::hash::group_hash_axioms;

/// The digit `k`, for `k < 10`.
pub open spec fn digit_char(k: nat) -> char {
    if k == 0 {
        '0'
    } else if k == 1 {
        '1'
    } else if k == 2 {
        '2'
    } else if k == 3 {
        '3'
    } else if k == 4 {
        '4'
    } else if k == 5 {
        '5'
    } else if k == 6 {
        '6'
    } else if k == 7 {
        '7'
    } else if k == 8 {
        '8'
    } else {
        '9'
    }
}

/// The cache key `"{token}::{max_edits}"` of a budget below 10.
pub open spec fn cache_key(tok: Seq<char>, k: nat) -> Seq<char> {
    tok + seq![':', ':', digit_char(k)]
}

proof fn lemma_cache_key_injective(t1: Seq<char>, k1: nat, t2: Seq<char>, k2: nat)
    requires
        k1 < 10,
        k2 < 10,
        cache_key(t1, k1) == cache_key(t2, k2),
    ensures
        t1 == t2,
        k1 == k2,
{
    let key = cache_key(t1, k1);
    assert(key.len() == t1.len() + 3);
    assert(key.len() == t2.len() + 3);
    assert(t1 =~= key.take(t1.len() as int));
    assert(t2 =~= key.take(t2.len() as int));
    assert(key[key.len() - 1] == digit_char(k1));
    assert(key[key.len() - 1] == digit_char(k2));
}

fn digit_str(k: usize) -> (r: &'static str)
    requires
        k < 10,
    ensures
        r@ == seq![digit_char(k as nat)],
{
    proof {
        reveal_strlit("0");
        reveal_strlit("1");
        reveal_strlit("2");
        reveal_strlit("3");
        reveal_strlit("4");
        reveal_strlit("5");
        reveal_strlit("6");
        reveal_strlit("7");
        reveal_strlit("8");
        reveal_strlit("9");
    }
    if k == 0 {
        "0"
    } else if k == 1 {
        "1"
    } else if k == 2 {
        "2"
    } else if k == 3 {
        "3"
    } else if k == 4 {
        "4"
    } else if k == 5 {
        "5"
    } else if k == 6 {
        "6"
    } else if k == 7 {
        "7"
    } else if k == 8 {
        "8"
    } else {
        proof {
            assert(seq!['9'] =~= "9"@);
        }
        "9"
    }
}

/// Builds the cache key of `tok` under the budget `k`.
pub fn cache_key_of(tok: &str, k: usize) -> (r: String)
    requires
        k < 10,
    ensures
        r@ == cache_key(tok@, k as nat),
{
    let mut key = String::from_str(tok);
    proof {
        reveal_strlit("::");
    }
    key.append("::");
    key.append(digit_str(k));
    assert(key@ =~= cache_key(tok@, k as nat));
    key
}

/// Every cached entry whose key names a token and a budget below 10 holds
/// the dictionary matches of that token under that budget.
pub open spec fn cache_consistent(c: Map<Seq<char>, Seq<(Seq<char>, nat)>>, dict: Seq<Seq<char>>) -> bool {
    forall|tok: Seq<char>, k: nat|
        k < 10 && #[trigger] c.contains_key(cache_key(tok, k)) ==> c[cache_key(tok, k)]
            == fuzzy_spec(dict, tok, k)
}

/// The postings that the matched terms `ms` reach, in order, each with the
/// edit distance of its term.
pub open spec fn match_postings(m: Map<Seq<char>, Word>, ms: Seq<(Seq<char>, nat)>) -> Seq<
    (WordInRecord, nat),
>
    decreases ms.len(),
{
    if ms.len() == 0 {
        seq![]
    } else {
        match_postings(m, ms.drop_last()) + postings_of(m, ms.last().0).map_values(
            |r: WordInRecord| (r, ms.last().1),
        )
    }
}

/// A posting as one number: document id and position.
pub open spec fn posting_key(r: WordInRecord) -> u64 {
    ((r.idx as int) * 4294967296 + (r.pos as int)) as u64
}

pub open spec fn exactness(d: nat) -> nat {
    if d == 0 {
        1
    } else {
        0
    }
}

/// One query token's pass over its postings `es`: a document is credited
/// once, by its first posting that no earlier token consumed, with
/// (1 if exact else 0, edit distance); the postings so credited join the
/// consumed set.
pub open spec fn token_pass(es: Seq<(WordInRecord, nat)>, consumed: Set<u64>) -> (
    Map<u32, (nat, nat)>,
    Set<u64>,
)
    decreases es.len(),
{
    if es.len() == 0 {
        (Map::empty(), consumed)
    } else {
        let (cur, cons) = token_pass(es.drop_last(), consumed);
        let (r, d) = es.last();
        if cons.contains(posting_key(r)) || cur.contains_key(r.idx) {
            (cur, cons)
        } else {
            (cur.insert(r.idx, (exactness(d), d)), cons.insert(posting_key(r)))
        }
    }
}

/// `a + b`, capped at `usize::MAX`.
pub open spec fn sat_add(a: nat, b: nat) -> nat {
    if a + b > usize::MAX {
        usize::MAX as nat
    } else {
        a + b
    }
}

/// The documents in both maps, with their counts added.
pub open spec fn intersect(acc: Map<u32, (nat, nat)>, cur: Map<u32, (nat, nat)>) -> Map<
    u32,
    (nat, nat),
> {
    Map::new(
        |d: u32| acc.contains_key(d) && cur.contains_key(d),
        |d: u32| (sat_add(acc[d].0, cur[d].0), sat_add(acc[d].1, cur[d].1)),
    )
}

/// The edit budget of token `i` of `toks`.
pub open spec fn token_budget(toks: Seq<Seq<char>>, i: int) -> nat {
    allowed_errors(toks[i].len(), i == toks.len() - 1)
}

/// The running result and the consumed postings after the first `n` tokens.
pub open spec fn aggregate(
    m: Map<Seq<char>, Word>,
    dict: Seq<Seq<char>>,
    toks: Seq<Seq<char>>,
    n: int,
) -> (Option<Map<u32, (nat, nat)>>, Set<u64>)
    decreases n,
{
    if n <= 0 {
        (None, Set::empty())
    } else {
        let (acc, cons) = aggregate(m, dict, toks, n - 1);
        let i = n - 1;
        let es = match_postings(m, fuzzy_spec(dict, toks[i], token_budget(toks, i)));
        let (cur, cons2) = token_pass(es, cons);
        (
            Some(
                match acc {
                    Some(a) => intersect(a, cur),
                    None => cur,
                },
            ),
            cons2,
        )
    }
}

/// The candidates of the query tokens `toks`: each document that matches
/// every token, with its number of exact matches and its total edit
/// distance.
pub open spec fn candidates_spec(
    m: Map<Seq<char>, Word>,
    dict: Seq<Seq<char>>,
    toks: Seq<Seq<char>>,
) -> Map<u32, (nat, nat)> {
    match aggregate(m, dict, toks, toks.len() as int).0 {
        Some(a) => a,
        None => Map::empty(),
    }
}

pub open spec fn counts_view(m: Map<u32, (usize, usize)>) -> Map<u32, (nat, nat)> {
    m.map_values(|v: (usize, usize)| (v.0 as nat, v.1 as nat))
}


/// The matches of `tok` under the budget `k`, from the cache when it holds
/// them, otherwise from the dictionary, and then cached.
fn cached_matches(trie: &Trie, tok: &str, k: usize, cache: &mut MatchCache) -> (r: Vec<(String, usize)>)
    requires
        trie.wf(),
        k < 10,
        cache_consistent(old(cache)@, trie@),
        old(cache).wf(),
    ensures
        final(cache).wf(),
        match_views(r@) == fuzzy_spec(trie@, tok@, k as nat),
        cache_consistent(final(cache)@, trie@),
{
    let key = cache_key_of(tok, k);
    match retrieve_from_cache(cache, key.as_str()) {
        Some(d) => d,
        None => {
            let found = trie.find_words(tok, k);
            let ghost before = cache@;
            insert_into_cache(cache, key.as_str(), &found);
            proof {
                assert forall|t: Seq<char>, b: nat|
                    b < 10 && #[trigger] cache@.contains_key(cache_key(t, b)) implies cache@[cache_key(t, b)]
                        == fuzzy_spec(trie@, t, b) by {
                    if cache_key(t, b) == key@ {
                        lemma_cache_key_injective(t, b, tok@, k as nat);
                    } else {
                        assert(before.contains_key(cache_key(t, b)));
                    }
                }
            }
            found
        },
    }
}

/// One token's pass over the postings of its matches `ms`: the credited
/// documents, listed once each in `r.1`, and the consumed postings grown.
fn token_pass_exec(word_map: &WordMap, ms: &Vec<(String, usize)>, consumed: &mut HashSet<u64>) -> (r: (
    HashMap<u32, (usize, usize)>,
    Vec<u32>,
))
    requires
        word_map.wf(),
    ensures
        (counts_view(r.0@), final(consumed)@) == token_pass(
            match_postings(word_map@, match_views(ms@)),
            old(consumed)@,
        ),
        r.1@.no_duplicates(),
        forall|d: u32| r.0@.contains_key(d) <==> r.1@.contains(d),
{
    let ghost m = word_map@;
    let ghost msv = match_views(ms@);
    let ghost c0 = consumed@;
    let mut cur: HashMap<u32, (usize, usize)> = HashMap::new();
    let mut keys: Vec<u32> = Vec::new();
    proof {
        assert(counts_view(cur@) =~= Map::empty());
        assert(msv.take(0) =~= seq![]);
    }
    let mut j: usize = 0;
    while j < ms.len()
        invariant
            j <= ms.len(),
            msv == match_views(ms@),
            word_map.wf(),
            m == word_map@,
            (counts_view(cur@), consumed@) == token_pass(match_postings(m, msv.take(j as int)), c0),
            keys@.no_duplicates(),
            forall|d: u32| cur@.contains_key(d) <==> keys@.contains(d),
        decreases ms.len() - j,
    {
        let d = ms[j].1;
        let ghost base = match_postings(m, msv.take(j as int));
        let ghost ps = postings_of(m, msv[j as int].0);
        let ghost f = |r: WordInRecord| (r, d as nat);
        proof {
            assert(msv.take(j + 1).drop_last() == msv.take(j as int));
            assert(msv.take(j + 1).last() == msv[j as int]);
            assert(msv[j as int] == (ms@[j as int].0@, d as nat));
            assert(match_postings(m, msv.take(j + 1)) == base + ps.map_values(f));
        }
        match word_map.get_word(ms[j].0.as_str()) {
            Ok(word) => {
                let mut l: usize = 0;
                proof {
                    assert(ps.take(0).map_values(f) =~= seq![]);
                    assert(base + ps.take(0).map_values(f) =~= base);
                }
                while l < word.in_records.len()
                    invariant
                        l <= word.in_records.len(),
                        word.in_records@ == ps,
                        (counts_view(cur@), consumed@) == token_pass(base + ps.take(l as int).map_values(f), c0),
                        keys@.no_duplicates(),
                        forall|x: u32| cur@.contains_key(x) <==> keys@.contains(x),
                        f == (|r: WordInRecord| (r, d as nat)),
                    decreases word.in_records.len() - l,
                {
                    let rec = word.in_records[l];
                    let ghost prev = base + ps.take(l as int).map_values(f);
                    let ghost next = base + ps.take(l + 1).map_values(f);
                    proof {
                        assert(ps.take(l + 1) == ps.take(l as int).push(rec));
                        assert(ps.take(l + 1).map_values(f) =~= ps.take(l as int).map_values(f).push((rec, d as nat)));
                        assert(next =~= prev.push((rec, d as nat)));
                        assert(next.drop_last() == prev);
                        assert((rec.idx as u64) * 4294967296 <= 18446744069414584320) by (nonlinear_arith)
                            requires rec.idx <= 4294967295u32;
                    }
                    let key = (rec.idx as u64) * 4294967296 + rec.pos as u64;
                    assert(key == posting_key(rec));
                    if !consumed.contains(&key) && !cur.contains_key(&rec.idx) {
                        let ghost cv = counts_view(cur@);
                        let ghost kv = keys@;
                        let e: usize = if d == 0 { 1 } else { 0 };
                        cur.insert(rec.idx, (e, d));
                        keys.push(rec.idx);
                        consumed.insert(key);
                        proof {
                            assert(counts_view(cur@) =~= cv.insert(rec.idx, (exactness(d as nat), d as nat)));
                            assert(!kv.contains(rec.idx));
                            assert forall|x: u32| cur@.contains_key(x) <==> keys@.contains(x) by {
                                if x != rec.idx && kv.contains(x) {
                                    let t = choose|t: int| 0 <= t < kv.len() && kv[t] == x;
                                    assert(keys@[t] == x);
                                }
                                if keys@.contains(x) && x != rec.idx {
                                    let t = choose|t: int| 0 <= t < keys@.len() && keys@[t] == x;
                                    assert(kv[t] == x);
                                }
                                assert(keys@[kv.len() as int] == rec.idx);
                            }
                        }
                    }
                    l += 1;
                }
                assert(ps.take(word.in_records.len() as int) == ps);
            },
            Err(_) => {
                assert(ps.map_values(f) =~= seq![]);
                assert(base + ps.map_values(f) =~= base);
            },
        }
        j += 1;
    }
    assert(msv.take(ms.len() as int) == msv);
    (cur, keys)
}

/// The documents of `acc` (listed once each in `order`) that `cur` also
/// holds, with their counts added, saturating.
fn intersect_exec(
    acc: &HashMap<u32, (usize, usize)>,
    order: &Vec<u32>,
    cur: &HashMap<u32, (usize, usize)>,
) -> (r: (HashMap<u32, (usize, usize)>, Vec<u32>))
    requires
        order@.no_duplicates(),
        forall|d: u32| acc@.contains_key(d) <==> order@.contains(d),
    ensures
        counts_view(r.0@) == intersect(counts_view(acc@), counts_view(cur@)),
        r.1@.no_duplicates(),
        forall|d: u32| r.0@.contains_key(d) <==> r.1@.contains(d),
{
    let mut out: HashMap<u32, (usize, usize)> = HashMap::new();
    let mut keys: Vec<u32> = Vec::new();
    let ghost want = intersect(counts_view(acc@), counts_view(cur@));
    let mut i: usize = 0;
    while i < order.len()
        invariant
            i <= order.len(),
            order@.no_duplicates(),
            forall|d: u32| acc@.contains_key(d) <==> order@.contains(d),
            want == intersect(counts_view(acc@), counts_view(cur@)),
            forall|d: u32| #[trigger] out@.contains_key(d) <==> (want.contains_key(d) && order@.take(i as int).contains(d)),
            forall|d: u32| #[trigger] out@.contains_key(d) ==> counts_view(out@)[d] == want[d],
            keys@.no_duplicates(),
            forall|d: u32| out@.contains_key(d) <==> keys@.contains(d),
        decreases order.len() - i,
    {
        let d = order[i];
        proof {
            assert(order@.take(i + 1) == order@.take(i as int).push(d));
            assert(!order@.take(i as int).contains(d)) by {
                if order@.take(i as int).contains(d) {
                    let t = choose|t: int| 0 <= t < i && #[trigger] order@.take(i as int)[t] == d;
                    assert(order@[t] == order@[i as int]);
                }
            }
            assert(acc@.contains_key(d)) by {
                assert(order@.contains(d)) by { assert(order@[i as int] == d); }
            }
        }
        match cur.get(&d) {
            Some(c) => {
                let a = acc.get(&d).unwrap();
                let ghost kv = keys@;
                out.insert(d, (a.0.saturating_add(c.0), a.1.saturating_add(c.1)));
                keys.push(d);
                proof {
                    assert forall|x: u32| #[trigger] out@.contains_key(x) <==> (want.contains_key(x) && order@.take(i + 1).contains(x)) by {
                        if order@.take(i + 1).contains(x) && x != d {
                            let t = choose|t: int| 0 <= t < i + 1 && #[trigger] order@.take(i + 1)[t] == x;
                            assert(order@.take(i as int)[t] == x);
                        }
                        if order@.take(i as int).contains(x) {
                            let t = choose|t: int| 0 <= t < i && #[trigger] order@.take(i as int)[t] == x;
                            assert(order@.take(i + 1)[t] == x);
                        }
                        assert(order@.take(i + 1)[i as int] == d);
                    }
                    assert(!kv.contains(d));
                    assert forall|x: u32| out@.contains_key(x) <==> keys@.contains(x) by {
                        if x != d && kv.contains(x) {
                            let t = choose|t: int| 0 <= t < kv.len() && kv[t] == x;
                            assert(keys@[t] == x);
                        }
                        if keys@.contains(x) && x != d {
                            let t = choose|t: int| 0 <= t < keys@.len() && keys@[t] == x;
                            assert(kv[t] == x);
                        }
                        assert(keys@[kv.len() as int] == d);
                    }
                }
            },
            None => {
                proof {
                    assert forall|x: u32| #[trigger] out@.contains_key(x) <==> (want.contains_key(x) && order@.take(i + 1).contains(x)) by {
                        if order@.take(i + 1).contains(x) && x != d {
                            let t = choose|t: int| 0 <= t < i + 1 && #[trigger] order@.take(i + 1)[t] == x;
                            assert(order@.take(i as int)[t] == x);
                        }
                        if order@.take(i as int).contains(x) {
                            let t = choose|t: int| 0 <= t < i && #[trigger] order@.take(i as int)[t] == x;
                            assert(order@.take(i + 1)[t] == x);
                        }
                    }
                }
            },
        }
        i += 1;
    }
    proof {
        assert(order@.take(order.len() as int) == order@);
        assert(counts_view(out@) =~= want);
    }
    (out, keys)
}


impl Trie {
    /// The candidates of `query`: the documents that approximately contain
    /// every normalized query token, each with its number of exact matches
    /// and its total edit distance. The result does not depend on what the
    /// cache holds.
    pub fn find_matches(&self, query: &str, word_map: &WordMap, cache: &mut MatchCache) -> (r: HashMap<
        u32,
        (usize, usize),
    >)
        requires
            self.wf(),
            word_map.wf(),
            cache_consistent(old(cache)@, self@),
            old(cache).wf(),
        ensures
            final(cache).wf(),
            counts_view(r@) == candidates_spec(word_map@, self@, normalize_spec(query@)),
            cache_consistent(final(cache)@, self@),
    {
        let tokens = normalize(query);
        let ghost toks = views(tokens@);
        let ghost m = word_map@;
        let ghost dict = self@;
        let n = tokens.len();
        let mut acc: Option<(HashMap<u32, (usize, usize)>, Vec<u32>)> = None;
        let mut consumed: HashSet<u64> = HashSet::new();
        let mut i: usize = 0;
        while i < n
            invariant
                i <= n,
                n == tokens.len(),
                toks == views(tokens@),
                m == word_map@,
                dict == self@,
                self.wf(),
                word_map.wf(),
                cache_consistent(cache@, self@),
                cache.wf(),
                consumed@ == aggregate(m, dict, toks, i as int).1,
                match acc {
                    None => aggregate(m, dict, toks, i as int).0 is None,
                    Some((mp, ord)) => {
                        &&& aggregate(m, dict, toks, i as int).0 == Some(counts_view(mp@))
                        &&& ord@.no_duplicates()
                        &&& forall|d: u32| mp@.contains_key(d) <==> ord@.contains(d)
                    },
                },
            decreases n - i,
        {
            let k = nr_allowed_errors(tokens[i].as_str(), i + 1 == n);
            assert(k == token_budget(toks, i as int));
            let ms = cached_matches(self, tokens[i].as_str(), k, cache);
            let (cur, cur_keys) = token_pass_exec(word_map, &ms, &mut consumed);
            acc = match acc {
                None => Some((cur, cur_keys)),
                Some((a, ord)) => Some(intersect_exec(&a, &ord, &cur)),
            };
            i += 1;
        }
        match acc {
            Some((mp, _)) => mp,
            None => {
                let mp: HashMap<u32, (usize, usize)> = HashMap::new();
                assert(counts_view(mp@) =~= Map::empty());
                mp
            },
        }
    }
}


/// One token's credited documents, given the postings consumed by the
/// tokens before it.
pub open spec fn token_docs(
    m: Map<Seq<char>, Word>,
    dict: Seq<Seq<char>>,
    toks: Seq<Seq<char>>,
    i: int,
) -> Map<u32, (nat, nat)> {
    token_pass(
        match_postings(m, fuzzy_spec(dict, toks[i], token_budget(toks, i))),
        aggregate(m, dict, toks, i).1,
    ).0
}

proof fn lemma_aggregate_docs(
    m: Map<Seq<char>, Word>,
    dict: Seq<Seq<char>>,
    toks: Seq<Seq<char>>,
    n: int,
    d: u32,
)
    requires
        0 < n <= toks.len(),
    ensures
        aggregate(m, dict, toks, n).0 is Some,
        aggregate(m, dict, toks, n).0->Some_0.contains_key(d) <==> forall|i: int|
            0 <= i < n ==> #[trigger] token_docs(m, dict, toks, i).contains_key(d),
    decreases n,
{
    if n > 1 {
        lemma_aggregate_docs(m, dict, toks, n - 1, d);
        if forall|i: int| 0 <= i < n ==> #[trigger] token_docs(m, dict, toks, i).contains_key(d) {
            assert(token_docs(m, dict, toks, n - 1).contains_key(d));
        }
        if !(forall|i: int| 0 <= i < n - 1 ==> #[trigger] token_docs(m, dict, toks, i).contains_key(d)) {
            let i = choose|i: int| !(0 <= i < n - 1 ==> #[trigger] token_docs(m, dict, toks, i).contains_key(d));
            assert(!(0 <= i < n ==> token_docs(m, dict, toks, i).contains_key(d)));
        }
    } else {
        if forall|i: int| 0 <= i < n ==> #[trigger] token_docs(m, dict, toks, i).contains_key(d) {
            assert(token_docs(m, dict, toks, 0).contains_key(d));
        }
    }
}

/// A document is a candidate exactly when every query token credits it:
/// matches are intersected across tokens.
pub proof fn lemma_candidates_match_every_token(
    m: Map<Seq<char>, Word>,
    dict: Seq<Seq<char>>,
    toks: Seq<Seq<char>>,
    d: u32,
)
    requires
        toks.len() > 0,
    ensures
        candidates_spec(m, dict, toks).contains_key(d) <==> forall|i: int|
            0 <= i < toks.len() ==> #[trigger] token_docs(m, dict, toks, i).contains_key(d),
{
    lemma_aggregate_docs(m, dict, toks, toks.len() as int, d);
}


proof fn lemma_token_pass_docs(es: Seq<(WordInRecord, nat)>, consumed: Set<u64>, x: u32)
    requires
        token_pass(es, consumed).0.contains_key(x),
    ensures
        exists|i: int| 0 <= i < es.len() && (#[trigger] es[i]).0.idx == x,
    decreases es.len(),
{
    if es.len() > 0 {
        let p = es.drop_last();
        if token_pass(p, consumed).0.contains_key(x) {
            lemma_token_pass_docs(p, consumed, x);
            let i = choose|i: int| 0 <= i < p.len() && (#[trigger] p[i]).0.idx == x;
            assert(es[i] == p[i]);
        } else {
            assert(es[es.len() - 1].0.idx == x);
        }
    }
}

proof fn lemma_match_postings(m: Map<Seq<char>, Word>, ms: Seq<(Seq<char>, nat)>, i: int)
    requires
        0 <= i < match_postings(m, ms).len(),
    ensures
        exists|j: int, k: int|
            0 <= j < ms.len() && 0 <= k < postings_of(m, ms[j].0).len() && #[trigger] postings_of(
                m,
                ms[j].0,
            )[k] == match_postings(m, ms)[i].0,
    decreases ms.len(),
{
    let p = match_postings(m, ms.drop_last());
    let t = ms.last().0;
    let f = |r: WordInRecord| (r, ms.last().1);
    assert(match_postings(m, ms) == p + postings_of(m, t).map_values(f));
    if i < p.len() {
        lemma_match_postings(m, ms.drop_last(), i);
        assert(match_postings(m, ms)[i] == p[i]);
        let (j, k) = choose|j: int, k: int|
            0 <= j < ms.drop_last().len() && 0 <= k < postings_of(m, ms.drop_last()[j].0).len()
                && #[trigger] postings_of(m, ms.drop_last()[j].0)[k] == p[i].0;
        assert(ms[j] == ms.drop_last()[j]);
    } else {
        let k = i - p.len();
        assert(match_postings(m, ms)[i] == postings_of(m, t).map_values(f)[k]);
        assert(postings_of(m, ms[ms.len() - 1].0)[k] == match_postings(m, ms)[i].0);
    }
}

/// A candidate document holds, for every query token, a posting of one of
/// that token's fuzzy matches: a document that lacks every match of some
/// token is never a candidate.
pub proof fn lemma_candidate_matches_each_token(
    m: Map<Seq<char>, Word>,
    dict: Seq<Seq<char>>,
    toks: Seq<Seq<char>>,
    d: u32,
    i: int,
)
    requires
        candidates_spec(m, dict, toks).contains_key(d),
        0 <= i < toks.len(),
    ensures
        exists|j: int, k: int|
            0 <= j < fuzzy_spec(dict, toks[i], token_budget(toks, i)).len() && 0 <= k < postings_of(
                m,
                fuzzy_spec(dict, toks[i], token_budget(toks, i))[j].0,
            ).len() && (#[trigger] postings_of(
                m,
                fuzzy_spec(dict, toks[i], token_budget(toks, i))[j].0,
            )[k]).idx == d,
{
    lemma_candidates_match_every_token(m, dict, toks, d);
    assert(token_docs(m, dict, toks, i).contains_key(d));
    let ms = fuzzy_spec(dict, toks[i], token_budget(toks, i));
    let es = match_postings(m, ms);
    lemma_token_pass_docs(es, aggregate(m, dict, toks, i).1, d);
    let e = choose|e: int| 0 <= e < es.len() && (#[trigger] es[e]).0.idx == d;
    lemma_match_postings(m, ms, e);
    let (j, k) = choose|j: int, k: int|
        0 <= j < ms.len() && 0 <= k < postings_of(m, ms[j].0).len() && #[trigger] postings_of(
            m,
            ms[j].0,
        )[k] == es[e].0;
    assert(postings_of(m, ms[j].0)[k].idx == d);
}

/// Every candidate document holds a posting of some indexed term.
pub proof fn lemma_candidates_have_postings(
    m: Map<Seq<char>, Word>,
    dict: Seq<Seq<char>>,
    toks: Seq<Seq<char>>,
    d: u32,
)
    requires
        candidates_spec(m, dict, toks).contains_key(d),
    ensures
        exists|t: Seq<char>, k: int|
            0 <= k < postings_of(m, t).len() && (#[trigger] postings_of(m, t)[k]).idx == d,
{
    if toks.len() == 0 {
        assert(candidates_spec(m, dict, toks) == Map::<u32, (nat, nat)>::empty());
    } else {
        lemma_candidates_match_every_token(m, dict, toks, d);
        assert(token_docs(m, dict, toks, 0).contains_key(d));
        let es = match_postings(m, fuzzy_spec(dict, toks[0], token_budget(toks, 0)));
        lemma_token_pass_docs(es, aggregate(m, dict, toks, 0).1, d);
        let i = choose|i: int| 0 <= i < es.len() && (#[trigger] es[i]).0.idx == d;
        let ms = fuzzy_spec(dict, toks[0], token_budget(toks, 0));
        lemma_match_postings(m, ms, i);
        let (j, k) = choose|j: int, k: int|
            0 <= j < ms.len() && 0 <= k < postings_of(m, ms[j].0).len() && #[trigger] postings_of(
                m,
                ms[j].0,
            )[k] == es[i].0;
        assert(postings_of(m, ms[j].0)[k].idx == d);
    }
}

} // verus!
