//! The document store, and the indexing of one document's tokens.

use std::collections::HashMap;
use vstd::prelude::*;
use crate::text::{normalize, normalize_spec, views};
use crate::word::{NotFound, WordInRecord, WordMap};

verus! {

broadcast use vstd::std_specs::hash::group_hash_axioms;

/// The postings of term `t` that the tokens `toks` of document `doc` give, in
/// token order; a posting's position is the token's index.
pub open spec fn occurrences(toks: Seq<Seq<char>>, t: Seq<char>, doc: u32) -> Seq<WordInRecord>
    decreases toks.len(),
{
    if toks.len() == 0 {
        seq![]
    } else {
        let r = occurrences(toks.drop_last(), t, doc);
        if toks.last() == t {
            r.push(WordInRecord { idx: doc, pos: (toks.len() - 1) as u32 })
        } else {
            r
        }
    }
}

/// The postings of `t` in the index `m`; none when `t` is not indexed.
pub open spec fn postings_of(m: Map<Seq<char>, crate::word::Word>, t: Seq<char>) -> Seq<WordInRecord> {
    if m.contains_key(t) {
        m[t].in_records@
    } else {
        seq![]
    }
}

/// The index cannot give a fresh term id to every token of a document.
#[derive(Clone, Copy, PartialEq, Eq, Debug)]
pub enum IndexFull {
    IndexFull,
}

/// A stored document.
#[derive(Debug)]
pub struct Document {
    pub id: u32,
    pub text: String,
}

impl Document {
    /// Adds one posting to the index for each normalized token of the text,
    /// with the token's position. Refused, with the index left as it is,
    /// when the term ids could run out: more than `u32::MAX` terms and tokens
    /// together.
    pub fn process(&self, word_map: &mut WordMap) -> (r: Result<(), IndexFull>)
        requires
            old(word_map).wf(),
        ensures
            final(word_map).wf(),
            r is Err <==> old(word_map)@.len() + normalize_spec(self.text@).len() > u32::MAX,
            r is Err ==> final(word_map)@ == old(word_map)@,
            r is Ok ==> {
                &&& forall|t: Seq<char>|
                    #[trigger] postings_of(final(word_map)@, t) == postings_of(old(word_map)@, t)
                        + occurrences(normalize_spec(self.text@), t, self.id)
                &&& forall|t: Seq<char>|
                    #[trigger] final(word_map)@.contains_key(t) <==> (old(word_map)@.contains_key(t)
                        || normalize_spec(self.text@).contains(t))
                &&& forall|t: Seq<char>|
                    #[trigger] old(word_map)@.contains_key(t) ==> final(word_map)@[t].id == old(
                        word_map,
                    )@[t].id
                &&& forall|t: Seq<char>, u: Seq<char>|
                    #[trigger] final(word_map)@.contains_key(t) && !old(word_map)@.contains_key(t)
                        && #[trigger] old(word_map)@.contains_key(u) ==> final(word_map)@[t].id
                        != old(word_map)@[u].id
            },
            forall|t: Seq<char>|
                #[trigger] final(word_map)@.contains_key(t) ==> final(word_map)@[t].wf()
                    && final(word_map)@[t].id < final(word_map)@.len(),
    {
        let tokens = normalize(self.text.as_str());
        let ghost toks = views(tokens@);
        if tokens.len() > (u32::MAX as usize) - word_map.len() {
            proof {
                word_map.lemma_terms_wf();
            }
            return Err(IndexFull::IndexFull);
        }
        let ghost m0 = word_map@;
        let mut i: usize = 0;
        while i < tokens.len()
            invariant
                i <= tokens.len(),
                toks == views(tokens@),
                toks == normalize_spec(self.text@),
                word_map.wf(),
                m0.len() + tokens.len() <= u32::MAX,
                word_map@.len() <= m0.len() + i,
                forall|t: Seq<char>|
                    #[trigger] postings_of(word_map@, t) == postings_of(m0, t) + occurrences(
                        toks.take(i as int),
                        t,
                        self.id,
                    ),
                forall|t: Seq<char>|
                    #[trigger] word_map@.contains_key(t) <==> (m0.contains_key(t) || toks.take(
                        i as int,
                    ).contains(t)),
                forall|t: Seq<char>| #[trigger] m0.contains_key(t) ==> word_map@.contains_key(t) && word_map@[t].id == m0[t].id,
            decreases tokens.len() - i,
        {
            let ghost before = word_map@;
            proof {
                word_map.lemma_dom_finite();
            }
            let ghost prefix = toks.take(i as int);
            let ghost next = toks.take(i + 1);
            assert(next.drop_last() == prefix);
            assert(next.last() == toks[i as int]);
            assert(toks[i as int] == tokens@[i as int]@);
            let w = word_map.get_or_create_word_mut(tokens[i].as_str());
            w.update_pos(self.id, i as u32);
            proof {
                let t0 = toks[i as int];
                assert(word_map@ == before.insert(t0, word_map@[t0]));
                assert(word_map@.dom() == before.dom().insert(t0));
                assert forall|t: Seq<char>|
                    #[trigger] postings_of(word_map@, t) == postings_of(m0, t) + occurrences(next, t, self.id) by {
                    if t == t0 {
                        let rec = WordInRecord { idx: self.id, pos: i as u32 };
                        assert(postings_of(word_map@, t) == postings_of(before, t).push(rec));
                        assert(occurrences(next, t, self.id) == occurrences(prefix, t, self.id).push(rec));
                        assert(postings_of(m0, t) + occurrences(prefix, t, self.id).push(WordInRecord { idx: self.id, pos: i as u32 })
                            == (postings_of(m0, t) + occurrences(prefix, t, self.id)).push(WordInRecord { idx: self.id, pos: i as u32 }));
                    } else {
                        assert(postings_of(word_map@, t) == postings_of(before, t));
                    }
                }
                assert forall|t: Seq<char>|
                    #[trigger] word_map@.contains_key(t) <==> (m0.contains_key(t) || next.contains(t)) by {
                    if next.contains(t) && t != t0 {
                        let k = choose|k: int| 0 <= k < next.len() && next[k] == t;
                        assert(prefix[k] == t);
                    }
                    if prefix.contains(t) {
                        let k = choose|k: int| 0 <= k < prefix.len() && prefix[k] == t;
                        assert(next[k] == t);
                    }
                    assert(next[i as int] == t0);
                }
            }
            i += 1;
        }
        assert(toks.take(tokens.len() as int) == toks);
        proof {
            word_map.lemma_terms_wf();
            assert forall|t: Seq<char>, u: Seq<char>|
                #[trigger] word_map@.contains_key(t) && !m0.contains_key(t)
                    && #[trigger] m0.contains_key(u) implies word_map@[t].id != m0[u].id by {
                assert(word_map@.contains_key(u));
                assert(t != u);
            }
        }
        Ok(())
    }
}

/// The document store: each text under the id it was given, ids counting up
/// from 0.
pub struct DocumentMap {
    document_map: HashMap<u32, String>,
    next_id: u32,
}

impl DocumentMap {
    pub closed spec fn view(&self) -> Map<u32, String> {
        self.document_map@
    }

    pub closed spec fn wf(&self) -> bool {
        forall|i: u32| #[trigger] self.document_map@.contains_key(i) <==> i < self.next_id
    }

    pub closed spec fn spec_len(&self) -> nat {
        self.next_id as nat
    }

    /// The stored ids are `0..spec_len()`.
    pub proof fn lemma_view_dom(&self)
        requires
            self.wf(),
        ensures
            forall|d: u32| self@.contains_key(d) <==> d < self.spec_len(),
            self.spec_len() <= u32::MAX,
    {
    }

    pub fn new() -> (r: DocumentMap)
        ensures
            r.wf(),
            r.spec_len() == 0,
            r@ == Map::<u32, String>::empty(),
    {
        DocumentMap { document_map: HashMap::new(), next_id: 0 }
    }

    /// The number of stored documents.
    pub fn len(&self) -> (r: usize)
        ensures
            r == self.spec_len(),
    {
        self.next_id as usize
    }

    /// Stores `text` under the next id and returns the new document.
    pub fn add_doc(&mut self, text: String) -> (r: Document)
        requires
            old(self).wf(),
            old(self).spec_len() < u32::MAX,
        ensures
            final(self).wf(),
            r.id == old(self).spec_len(),
            r.text@ == text@,
            final(self).spec_len() == old(self).spec_len() + 1,
            final(self)@ == old(self)@.insert(r.id, text),
    {
        let id = self.next_id;
        self.document_map.insert(id, text.clone());
        self.next_id = id + 1;
        Document { id, text }
    }

    /// The text stored under `id`.
    pub fn get_text(&self, id: u32) -> (r: Result<&String, NotFound>)
        ensures
            match r {
                Ok(t) => self@.contains_key(id) && *t == self@[id],
                Err(_) => !self@.contains_key(id),
            },
    {
        match self.document_map.get(&id) {
            Some(t) => Ok(t),
            None => Err(NotFound::NotFound),
        }
    }

    /// The texts of the documents `doc_id`, in order; `NotFound` when one
    /// of them is absent.
    pub fn get_document(&self, doc_id: &Vec<u32>) -> (r: Result<Vec<String>, NotFound>)
        ensures
            r is Ok <==> forall|i: int| 0 <= i < doc_id@.len() ==> self@.contains_key(#[trigger] doc_id@[i]),
            r matches Ok(v) ==> v@.len() == doc_id@.len() && forall|i: int|
                0 <= i < doc_id@.len() ==> #[trigger] v@[i]@ == self@[doc_id@[i]]@,
    {
        let mut out: Vec<String> = Vec::new();
        let mut i: usize = 0;
        while i < doc_id.len()
            invariant
                i <= doc_id.len(),
                out@.len() == i,
                forall|k: int| 0 <= k < i ==> self@.contains_key(#[trigger] doc_id@[k]),
                forall|k: int| 0 <= k < i ==> #[trigger] out@[k]@ == self@[doc_id@[k]]@,
            decreases doc_id.len() - i,
        {
            match self.get_text(doc_id[i]) {
                Ok(t) => out.push(t.clone()),
                Err(e) => return Err(e),
            }
            i += 1;
        }
        Ok(out)
    }
}

} // verus!
