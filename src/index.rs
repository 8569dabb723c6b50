//! The search index: the document store and the inverted index, kept in
//! step as documents are ingested.

use vstd::prelude::*;
use crate::document::{occurrences, postings_of, Document, DocumentMap, IndexFull};
use crate::text::normalize_spec;
use crate::word::{WordInRecord, WordMap};
use crate::aggregate::{cache_consistent, candidates_spec, lemma_candidates_have_postings};
use crate::cache::MatchCache;
use crate::rank::{search, top_results, TOP_N};
use crate::record::highlighted_spec;
use crate::trie::Trie;

verus! {

/// The postings of `t` that documents `0..n` of `store` give, in id order.
pub open spec fn all_occurrences(store: Map<u32, String>, t: Seq<char>, n: nat) -> Seq<WordInRecord>
    decreases n,
{
    if n == 0 {
        seq![]
    } else {
        all_occurrences(store, t, (n - 1) as nat) + occurrences(
            normalize_spec(store[(n - 1) as u32]@),
            t,
            (n - 1) as u32,
        )
    }
}

/// The document store and the inverted index built from it.
pub struct SearchIndex {
    pub docs: DocumentMap,
    pub words: WordMap,
}

impl SearchIndex {
    /// Both parts are well formed, and the postings of every term are
    /// exactly the occurrences of that term in the stored documents.
    pub open spec fn wf(&self) -> bool {
        &&& self.docs.wf()
        &&& self.words.wf()
        &&& forall|d: u32| self.docs@.contains_key(d) <==> d < self.docs.spec_len()
        &&& forall|d: u32|
            #[trigger] self.docs@.contains_key(d) ==> normalize_spec(self.docs@[d]@).len()
                <= u32::MAX
        &&& forall|t: Seq<char>|
            #[trigger] postings_of(self.words@, t) == all_occurrences(
                self.docs@,
                t,
                self.docs.spec_len(),
            )
    }

    pub fn new() -> (r: SearchIndex)
        ensures
            r.wf(),
            r.docs.spec_len() == 0,
    {
        let r = SearchIndex { docs: DocumentMap::new(), words: WordMap::new() };
        proof {
            r.docs.lemma_view_dom();
        }
        r
    }

    /// Stores `text` as the next document and indexes its tokens. Refused,
    /// with nothing changed, when the document ids or the term ids could run
    /// out.
    pub fn ingest(&mut self, text: String) -> (r: Result<u32, IndexFull>)
        requires
            old(self).wf(),
        ensures
            final(self).wf(),
            r is Err <==> (old(self).docs.spec_len() >= u32::MAX || old(self).words@.len()
                + normalize_spec(text@).len() > u32::MAX),
            r is Err ==> final(self).docs@ == old(self).docs@ && final(self).words@ == old(
                self,
            ).words@,
            r matches Ok(id) ==> id == old(self).docs.spec_len() && final(self).docs@ == old(
                self,
            ).docs@.insert(id, text),
    {
        let n = self.docs.len();
        if n >= u32::MAX as usize {
            return Err(IndexFull::IndexFull);
        }
        let ghost old_words = self.words@;
        let ghost old_docs = self.docs@;
        let doc = Document { id: n as u32, text };
        match doc.process(&mut self.words) {
            Err(e) => Err(e),
            Ok(()) => {
                let added = self.docs.add_doc(doc.text);
                proof {
                    self.docs.lemma_view_dom();
                    let id = n as u32;
                    assert forall|t: Seq<char>|
                        #[trigger] postings_of(self.words@, t) == all_occurrences(
                            self.docs@,
                            t,
                            self.docs.spec_len(),
                        ) by {
                        lemma_all_occurrences_frame(old_docs, self.docs@, t, n as nat);
                        assert(self.docs@[id]@ == added.text@);
                    }
                }
                Ok(added.id)
            },
        }
    }
}

proof fn lemma_all_occurrences_frame(a: Map<u32, String>, b: Map<u32, String>, t: Seq<char>, n: nat)
    requires
        n <= u32::MAX + 1,
        forall|d: u32| d < n ==> #[trigger] a.contains_key(d),
        forall|d: u32| d < n ==> #[trigger] b.contains_key(d),
        forall|d: u32| d < n ==> #[trigger] a[d] == b[d],
    ensures
        all_occurrences(a, t, n) == all_occurrences(b, t, n),
    decreases n,
{
    if n > 0 {
        lemma_all_occurrences_frame(a, b, t, (n - 1) as nat);
        assert(a[(n - 1) as u32] == b[(n - 1) as u32]);
    }
}


proof fn lemma_occurrences(toks: Seq<Seq<char>>, t: Seq<char>, doc: u32)
    requires
        toks.len() <= u32::MAX,
    ensures
        forall|i: int|
            0 <= i < occurrences(toks, t, doc).len() ==> {
                let r = #[trigger] occurrences(toks, t, doc)[i];
                &&& r.idx == doc
                &&& r.pos < toks.len()
                &&& toks[r.pos as int] == t
            },
        forall|k: int|
            0 <= k < toks.len() && toks[k] == t ==> occurrences(toks, t, doc).contains(
                WordInRecord { idx: doc, pos: k as u32 },
            ),
        forall|a: int, b: int|
            0 <= a < b < occurrences(toks, t, doc).len() ==> occurrences(toks, t, doc)[a].pos
                < occurrences(toks, t, doc)[b].pos,
    decreases toks.len(),
{
    if toks.len() > 0 {
        let p = toks.drop_last();
        lemma_occurrences(p, t, doc);
        let o = occurrences(p, t, doc);
        let r = occurrences(toks, t, doc);
        assert forall|i: int| 0 <= i < r.len() implies {
            let x = #[trigger] r[i];
            &&& x.idx == doc
            &&& x.pos < toks.len()
            &&& toks[x.pos as int] == t
        } by {
            if i < o.len() {
                assert(r[i] == o[i]);
                assert(toks[o[i].pos as int] == p[o[i].pos as int]);
            }
        }
        assert forall|k: int| 0 <= k < toks.len() && toks[k] == t implies r.contains(
            WordInRecord { idx: doc, pos: k as u32 },
        ) by {
            if k < toks.len() - 1 {
                assert(p[k] == t);
                let j = choose|j: int| 0 <= j < o.len() && o[j] == WordInRecord { idx: doc, pos: k as u32 };
                assert(r[j] == o[j]);
            } else {
                assert(r[r.len() - 1] == WordInRecord { idx: doc, pos: k as u32 });
            }
        }
        assert forall|a: int, b: int| 0 <= a < b < r.len() implies r[a].pos < r[b].pos by {
            assert(r[a] == o[a]);
            if b < o.len() {
                assert(r[b] == o[b]);
            } else {
                assert(o[a].pos < p.len());
            }
        }
    }
}

proof fn lemma_all_occurrences(store: Map<u32, String>, t: Seq<char>, n: nat)
    requires
        n <= u32::MAX + 1,
        forall|d: u32| d < n ==> #[trigger] store.contains_key(d),
        forall|d: u32| d < n ==> #[trigger] normalize_spec(store[d]@).len() <= u32::MAX,
    ensures
        forall|i: int|
            0 <= i < all_occurrences(store, t, n).len() ==> {
                let r = #[trigger] all_occurrences(store, t, n)[i];
                &&& r.idx < n
                &&& r.pos < normalize_spec(store[r.idx]@).len()
                &&& normalize_spec(store[r.idx]@)[r.pos as int] == t
            },
        forall|d: u32, k: int|
            d < n && 0 <= k < normalize_spec(store[d]@).len() && normalize_spec(store[d]@)[k] == t
                ==> all_occurrences(store, t, n).contains(WordInRecord { idx: d, pos: k as u32 }),
        all_occurrences(store, t, n).no_duplicates(),
    decreases n,
{
    if n > 0 {
        let d0 = (n - 1) as u32;
        lemma_all_occurrences(store, t, (n - 1) as nat);
        let toks = normalize_spec(store[d0]@);
        assert(toks.len() <= u32::MAX);
        lemma_occurrences(toks, t, d0);
        let a = all_occurrences(store, t, (n - 1) as nat);
        let o = occurrences(toks, t, d0);
        let r = all_occurrences(store, t, n);
        assert(r == a + o);
        assert forall|i: int| 0 <= i < r.len() implies {
            let x = #[trigger] r[i];
            &&& x.idx < n
            &&& x.pos < normalize_spec(store[x.idx]@).len()
            &&& normalize_spec(store[x.idx]@)[x.pos as int] == t
        } by {
            if i < a.len() {
                assert(r[i] == a[i]);
            } else {
                assert(r[i] == o[i - a.len()]);
            }
        }
        assert forall|d: u32, k: int|
            d < n && 0 <= k < normalize_spec(store[d]@).len() && normalize_spec(store[d]@)[k] == t
                implies r.contains(WordInRecord { idx: d, pos: k as u32 }) by {
            let w = WordInRecord { idx: d, pos: k as u32 };
            if d < n - 1 {
                let j = choose|j: int| 0 <= j < a.len() && a[j] == w;
                assert(r[j] == w);
            } else {
                let j = choose|j: int| 0 <= j < o.len() && o[j] == w;
                assert(r[a.len() + j] == w);
            }
        }
        assert forall|x: int, y: int| 0 <= x < y < r.len() implies r[x] != r[y] by {
            if y < a.len() {
                assert(r[x] == a[x] && r[y] == a[y]);
            } else if x >= a.len() {
                assert(r[x] == o[x - a.len()] && r[y] == o[y - a.len()]);
            } else {
                assert(r[x] == a[x] && r[y] == o[y - a.len()]);
                assert(a[x].idx < n - 1);
            }
        }
    }
}

/// Every posting names a stored document and a position where that
/// document's normalized text holds the term; every occurrence of a term in
/// a stored document has a posting; and no posting is repeated. So the
/// postings of a term are exactly its occurrences, one each.
pub proof fn lemma_postings_are_occurrences(idx: &SearchIndex, t: Seq<char>)
    requires
        idx.wf(),
    ensures
        forall|i: int|
            0 <= i < postings_of(idx.words@, t).len() ==> {
                let r = #[trigger] postings_of(idx.words@, t)[i];
                &&& idx.docs@.contains_key(r.idx)
                &&& r.pos < normalize_spec(idx.docs@[r.idx]@).len()
                &&& normalize_spec(idx.docs@[r.idx]@)[r.pos as int] == t
            },
        forall|d: u32, k: int|
            idx.docs@.contains_key(d) && 0 <= k < normalize_spec(idx.docs@[d]@).len()
                && normalize_spec(idx.docs@[d]@)[k] == t ==> postings_of(idx.words@, t).contains(
                WordInRecord { idx: d, pos: k as u32 },
            ),
        postings_of(idx.words@, t).no_duplicates(),
{
    let n = idx.docs.spec_len();
    idx.docs.lemma_view_dom();
    assert forall|d: u32| d < n implies #[trigger] normalize_spec(idx.docs@[d]@).len() <= u32::MAX by {
        assert(idx.docs@.contains_key(d));
    }
    lemma_all_occurrences(idx.docs@, t, n);
}


impl SearchIndex {
    /// The results of `query` over this index, best first: at most `TOP_N`
    /// pairs of (highlighted text, text). Every candidate's document is
    /// stored, so the ranking never fails here.
    pub fn search(&self, trie: &Trie, cache: &mut MatchCache, query: &str) -> (r: Vec<(String, String)>)
        requires
            self.wf(),
            trie.wf(),
            cache_consistent(old(cache)@, trie@),
            old(cache).wf(),
        ensures
            final(cache).wf(),
            cache_consistent(final(cache)@, trie@),
            ({
                let top = top_results(candidates_spec(self.words@, trie@, normalize_spec(query@)), self.docs@, query@);
                &&& r@.len() <= TOP_N
                &&& r@.len() == top.len()
                &&& forall|i: int| 0 <= i < r@.len() ==> {
                    &&& r@[i].0@ == highlighted_spec(normalize_spec(query@), self.docs@[#[trigger] top[i]]@)
                    &&& r@[i].1@ == self.docs@[top[i]]@
                }
            }),
    {
        let found = search(trie, &self.words, &self.docs, cache, query);
        match found {
            Ok(v) => v,
            Err(_) => {
                proof {
                    let c = candidates_spec(self.words@, trie@, normalize_spec(query@));
                    let d = choose|d: u32| c.contains_key(d) && !self.docs@.contains_key(d);
                    lemma_candidates_have_postings(self.words@, trie@, normalize_spec(query@), d);
                    let (t, k) = choose|t: Seq<char>, k: int|
                        0 <= k < postings_of(self.words@, t).len() && (#[trigger] postings_of(self.words@, t)[k]).idx == d;
                    lemma_postings_are_occurrences(self, t);
                    assert(self.docs@.contains_key(postings_of(self.words@, t)[k].idx));
                }
                Vec::new()
            },
        }
    }
}

} // verus!
