//! The inverted index: a map from each normalized term to its record of
//! occurrences.

use vstd::prelude::*;
use crate::text::{chars_of, views};

verus! {

/// One occurrence of a term: the document and the position of the token in it.
#[derive(Clone, Copy, PartialEq, Eq, Hash, Debug)]
pub struct WordInRecord {
    pub idx: u32,
    pub pos: u32,
}

/// A term record: its id, its postings in the order they were added, the
/// position of each posting, and the number of occurrences (saturating).
#[derive(Debug)]
pub struct Word {
    pub id: u32,
    pub in_records: Vec<WordInRecord>,
    pub position: Vec<u32>,
    pub popularity: u32,
}

pub open spec fn saturating_count(n: nat) -> u32 {
    if n >= u32::MAX {
        u32::MAX
    } else {
        n as u32
    }
}

impl Word {
    /// Positions agree with postings, and popularity counts them.
    pub open spec fn wf(&self) -> bool {
        &&& self.position@.len() == self.in_records@.len()
        &&& forall|i: int|
            0 <= i < self.position@.len() ==> #[trigger] self.position@[i]
                == self.in_records@[i].pos
        &&& self.popularity == saturating_count(self.in_records@.len())
    }

    pub fn new(id: u32) -> (r: Word)
        ensures
            r.id == id,
            r.in_records@.len() == 0,
            r.position@.len() == 0,
            r.popularity == 0,
            r.wf(),
    {
        Word { id, in_records: Vec::new(), position: Vec::new(), popularity: 0 }
    }

    /// Appends the posting `(doc_id, pos)`.
    pub fn update_pos(&mut self, doc_id: u32, pos: u32)
        requires
            old(self).wf(),
        ensures
            final(self).wf(),
            final(self).id == old(self).id,
            final(self).in_records@ == old(self).in_records@.push(
                WordInRecord { idx: doc_id, pos },
            ),
    {
        self.in_records.push(WordInRecord { idx: doc_id, pos });
        self.position.push(pos);
        if self.popularity < u32::MAX {
            self.popularity = self.popularity + 1;
        }
        assert(self.position@.last() == pos);
    }
}

pub const N_BUCKETS: usize = 4096;

pub const HASH_MOD: u64 = 1099511627776;

/// The hash that places a term in a bucket.
pub open spec fn term_hash(s: Seq<char>) -> nat
    decreases s.len(),
{
    if s.len() == 0 {
        0
    } else {
        ((term_hash(s.drop_last()) * 31 + (s.last() as u32) as nat) % (HASH_MOD as nat)) as nat
    }
}

pub open spec fn bucket_of(s: Seq<char>) -> int {
    (term_hash(s) % (N_BUCKETS as nat)) as int
}

fn bucket_index(word: &str) -> (r: usize)
    ensures
        r == bucket_of(word@),
        r < N_BUCKETS,
{
    let cs = chars_of(word);
    let mut h: u64 = 0;
    let mut i: usize = 0;
    while i < cs.len()
        invariant
            i <= cs.len(),
            cs@ == word@,
            h == term_hash(cs@.take(i as int)),
            h < HASH_MOD,
        decreases cs.len() - i,
    {
        assert(cs@.take(i + 1).drop_last() == cs@.take(i as int));
        let c = cs[i] as u32;
        assert(h * 31 < 0x1_0000_0000_0000_0000) by (nonlinear_arith)
            requires
                h < HASH_MOD,
        ;
        h = (h * 31 + c as u64) % HASH_MOD;
        i += 1;
    }
    assert(cs@.take(cs.len() as int) == cs@);
    (h % (N_BUCKETS as u64)) as usize
}

/// Lookup of a term that was never indexed.
#[derive(Clone, Copy, PartialEq, Eq, Debug)]
pub enum NotFound {
    NotFound,
}

/// The inverted index. Terms are kept in buckets chosen by `term_hash`; the
/// next term id comes from an owned counter.
pub struct WordMap {
    buckets: Vec<Vec<(String, Word)>>,
    next_id: u32,
}

pub open spec fn entry_at(bk: Seq<(String, Word)>, s: Seq<char>) -> int {
    choose|j: int| 0 <= j < bk.len() && #[trigger] bk[j].0@ == s
}

pub open spec fn in_bucket(bk: Seq<(String, Word)>, s: Seq<char>) -> bool {
    exists|j: int| 0 <= j < bk.len() && #[trigger] bk[j].0@ == s
}

/// The map that a sequence of buckets holds.
pub open spec fn view_of(bs: Seq<Vec<(String, Word)>>) -> Map<Seq<char>, Word> {
    Map::new(
        |s: Seq<char>| in_bucket(bs[bucket_of(s)]@, s),
        |s: Seq<char>| bs[bucket_of(s)]@[entry_at(bs[bucket_of(s)]@, s)].1,
    )
}

/// Each term sits in its own bucket, once.
pub open spec fn buckets_wf(bs: Seq<Vec<(String, Word)>>) -> bool {
    &&& bs.len() == N_BUCKETS
    &&& forall|b: int, j: int|
        0 <= b < N_BUCKETS && 0 <= j < bs[b]@.len() ==> bucket_of(#[trigger] bs[b]@[j].0@) == b
    &&& forall|b: int, j1: int, j2: int|
        0 <= b < N_BUCKETS && 0 <= j1 < bs[b]@.len() && 0 <= j2 < bs[b]@.len()
            && #[trigger] bs[b]@[j1].0@ == #[trigger] bs[b]@[j2].0@ ==> j1 == j2
}

/// Every term record is well formed; term ids are distinct and below the
/// counter `n`, which counts the terms.
pub open spec fn index_wf(m: Map<Seq<char>, Word>, n: u32) -> bool {
    &&& forall|s: Seq<char>| #[trigger] m.contains_key(s) ==> m[s].wf()
    &&& forall|s: Seq<char>| #[trigger] m.contains_key(s) ==> m[s].id < n
    &&& forall|s1: Seq<char>, s2: Seq<char>|
        #[trigger] m.contains_key(s1) && #[trigger] m.contains_key(s2) && s1 != s2 ==> m[s1].id
            != m[s2].id
    &&& m.dom().finite()
    &&& n == m.dom().len()
}

proof fn lemma_bucket_entry(bs: Seq<Vec<(String, Word)>>, b: int, j: int)
    requires
        buckets_wf(bs),
        0 <= b < N_BUCKETS,
        0 <= j < bs[b]@.len(),
    ensures
        view_of(bs).contains_key(bs[b]@[j].0@),
        view_of(bs)[bs[b]@[j].0@] == bs[b]@[j].1,
{
    let s = bs[b]@[j].0@;
    assert(bucket_of(s) == b);
    assert(in_bucket(bs[b]@, s));
    let k = entry_at(bs[b]@, s);
    assert(bs[b]@[k].0@ == s);
}

proof fn lemma_bucket_set(
    bs: Seq<Vec<(String, Word)>>,
    b: int,
    j: int,
    v: Vec<(String, Word)>,
    w: Word,
)
    requires
        buckets_wf(bs),
        0 <= b < N_BUCKETS,
        0 <= j < bs[b]@.len(),
        v@ == bs[b]@.update(j, (bs[b]@[j].0, w)),
    ensures
        buckets_wf(bs.update(b, v)),
        view_of(bs.update(b, v)) == view_of(bs).insert(bs[b]@[j].0@, w),
{
    let nb = bs.update(b, v);
    let s = bs[b]@[j].0@;
    assert forall|bb: int, jj: int| 0 <= bb < N_BUCKETS && 0 <= jj < nb[bb]@.len() implies bucket_of(
        #[trigger] nb[bb]@[jj].0@,
    ) == bb by {
        if bb == b {
            assert(nb[bb]@[jj].0 == bs[b]@[jj].0);
        }
    }
    assert forall|bb: int, j1: int, j2: int|
        0 <= bb < N_BUCKETS && 0 <= j1 < nb[bb]@.len() && 0 <= j2 < nb[bb]@.len()
            && #[trigger] nb[bb]@[j1].0@ == #[trigger] nb[bb]@[j2].0@ implies j1 == j2 by {
        if bb == b {
            assert(nb[bb]@[j1].0 == bs[b]@[j1].0);
            assert(nb[bb]@[j2].0 == bs[b]@[j2].0);
        }
    }
    lemma_bucket_entry(bs, b, j);
    assert forall|t: Seq<char>| #[trigger] view_of(nb).contains_key(t) == view_of(bs).insert(
        s,
        w,
    ).contains_key(t) && (view_of(nb).contains_key(t) ==> view_of(nb)[t] == view_of(bs).insert(
        s,
        w,
    )[t]) by {
        let bt = bucket_of(t);
        if bt != b {
            assert(nb[bt] == bs[bt]);
        } else {
            if in_bucket(bs[b]@, t) {
                let k = entry_at(bs[b]@, t);
                assert(nb[b]@[k].0@ == t);
                assert(in_bucket(nb[b]@, t));
            }
            if in_bucket(nb[b]@, t) {
                let k = entry_at(nb[b]@, t);
                assert(bs[b]@[k].0@ == t);
                assert(in_bucket(bs[b]@, t));
                if t == s {
                    assert(k == j);
                } else {
                    let k2 = entry_at(bs[b]@, t);
                    assert(k2 == k);
                }
            }
        }
    }
    assert(view_of(nb) =~= view_of(bs).insert(s, w));
}

proof fn lemma_bucket_push(
    bs: Seq<Vec<(String, Word)>>,
    b: int,
    v: Vec<(String, Word)>,
    name: String,
    w: Word,
)
    requires
        buckets_wf(bs),
        b == bucket_of(name@),
        !view_of(bs).contains_key(name@),
        v@ == bs[b]@.push((name, w)),
    ensures
        buckets_wf(bs.update(b, v)),
        view_of(bs.update(b, v)) == view_of(bs).insert(name@, w),
{
    let nb = bs.update(b, v);
    let s = name@;
    let n = bs[b]@.len() as int;
    assert(0 <= b < N_BUCKETS);
    assert forall|bb: int, jj: int| 0 <= bb < N_BUCKETS && 0 <= jj < nb[bb]@.len() implies bucket_of(
        #[trigger] nb[bb]@[jj].0@,
    ) == bb by {
        if bb == b && jj < n {
            assert(nb[bb]@[jj] == bs[b]@[jj]);
        }
    }
    assert forall|bb: int, j1: int, j2: int|
        0 <= bb < N_BUCKETS && 0 <= j1 < nb[bb]@.len() && 0 <= j2 < nb[bb]@.len()
            && #[trigger] nb[bb]@[j1].0@ == #[trigger] nb[bb]@[j2].0@ implies j1 == j2 by {
        if bb == b {
            if j1 < n {
                assert(nb[bb]@[j1] == bs[b]@[j1]);
            }
            if j2 < n {
                assert(nb[bb]@[j2] == bs[b]@[j2]);
            }
            if j1 < n && j2 == n {
                assert(in_bucket(bs[b]@, s));
            }
            if j2 < n && j1 == n {
                assert(in_bucket(bs[b]@, s));
            }
        }
    }
    assert forall|t: Seq<char>| #[trigger] view_of(nb).contains_key(t) == view_of(bs).insert(
        s,
        w,
    ).contains_key(t) && (view_of(nb).contains_key(t) ==> view_of(nb)[t] == view_of(bs).insert(
        s,
        w,
    )[t]) by {
        let bt = bucket_of(t);
        if bt != b {
            assert(nb[bt] == bs[bt]);
        } else {
            if in_bucket(bs[b]@, t) {
                let k = entry_at(bs[b]@, t);
                assert(nb[b]@[k].0@ == t);
                assert(in_bucket(nb[b]@, t));
            }
            if t == s {
                assert(nb[b]@[n].0@ == t);
                assert(in_bucket(nb[b]@, t));
                let k = entry_at(nb[b]@, t);
                assert(k == n);
            } else if in_bucket(nb[b]@, t) {
                let k = entry_at(nb[b]@, t);
                assert(k < n);
                assert(bs[b]@[k].0@ == t);
                assert(in_bucket(bs[b]@, t));
                let k2 = entry_at(bs[b]@, t);
                assert(nb[b]@[k2].0@ == t);
                assert(k2 == k);
            }
        }
    }
    assert(view_of(nb) =~= view_of(bs).insert(s, w));
}

impl WordMap {
    pub closed spec fn view(&self) -> Map<Seq<char>, Word> {
        view_of(self.buckets@)
    }

    pub closed spec fn wf(&self) -> bool {
        buckets_wf(self.buckets@) && index_wf(self@, self.next_id)
    }

    pub fn new() -> (r: WordMap)
        ensures
            r.wf(),
            r@ == Map::<Seq<char>, Word>::empty(),
    {
        let mut buckets: Vec<Vec<(String, Word)>> = Vec::new();
        let mut i: usize = 0;
        while i < N_BUCKETS
            invariant
                i <= N_BUCKETS,
                buckets@.len() == i,
                forall|b: int| 0 <= b < i ==> (#[trigger] buckets@[b])@.len() == 0,
            decreases N_BUCKETS - i,
        {
            buckets.push(Vec::new());
            i += 1;
        }
        let r = WordMap { buckets, next_id: 0 };
        assert(r@ =~= Map::<Seq<char>, Word>::empty()) by {
            assert forall|s: Seq<char>| !r@.contains_key(s) by {
                assert(r.buckets@[bucket_of(s)]@.len() == 0);
            }
        }
        r
    }

    /// Every term record is well formed (positions follow postings, and
    /// popularity counts them), every id is below the number of terms, and
    /// ids are pairwise distinct.
    pub proof fn lemma_terms_wf(&self)
        requires
            self.wf(),
        ensures
            forall|t: Seq<char>| #[trigger] self@.contains_key(t) ==> self@[t].wf() && self@[t].id < self@.len(),
            forall|t1: Seq<char>, t2: Seq<char>|
                #[trigger] self@.contains_key(t1) && #[trigger] self@.contains_key(t2) && t1 != t2
                    ==> self@[t1].id != self@[t2].id,
    {
    }

    pub proof fn lemma_dom_finite(&self)
        requires
            self.wf(),
        ensures
            self@.dom().finite(),
    {
    }

    /// The number of terms.
    pub fn len(&self) -> (r: usize)
        requires
            self.wf(),
        ensures
            r == self@.len(),
            r <= u32::MAX,
    {
        self.next_id as usize
    }

    fn find(&self, word: &str) -> (r: (usize, Option<usize>))
        requires
            self.wf(),
        ensures
            r.0 == bucket_of(word@),
            match r.1 {
                Some(j) => j < self.buckets@[r.0 as int]@.len() && self.buckets@[r.0 as int]@[j as int].0@
                    == word@,
                None => !self@.contains_key(word@),
            },
    {
        let b = bucket_index(word);
        let key = String::from_str(word);
        let bk = &self.buckets[b];
        let mut j: usize = 0;
        while j < bk.len()
            invariant
                j <= bk.len(),
                b == bucket_of(word@),
                key@ == word@,
                bk@ == self.buckets@[b as int]@,
                forall|k: int| 0 <= k < j ==> (#[trigger] bk@[k]).0@ != word@,
            decreases bk.len() - j,
        {
            if bk[j].0 == key {
                return (b, Some(j));
            }
            j += 1;
        }
        proof {
            if self@.contains_key(word@) {
                let k = entry_at(self.buckets@[b as int]@, word@);
                assert(bk@[k].0@ == word@);
            }
        }
        (b, None)
    }

    /// The record of `word`, or `NotFound` when it was never indexed.
    pub fn get_word(&self, word: &str) -> (r: Result<&Word, NotFound>)
        requires
            self.wf(),
        ensures
            match r {
                Ok(w) => self@.contains_key(word@) && *w == self@[word@],
                Err(_) => !self@.contains_key(word@),
            },
    {
        let (b, found) = self.find(word);
        match found {
            Some(j) => {
                proof {
                    lemma_bucket_entry(self.buckets@, b as int, j as int);
                }
                Ok(&self.buckets[b][j].1)
            },
            None => Err(NotFound::NotFound),
        }
    }

    /// The record of `word`, created with the next term id when `word` is new.
    /// Changes made through the returned reference land in the map.
    pub fn get_or_create_word_mut(&mut self, word: &str) -> (r: &mut Word)
        requires
            old(self).wf(),
            old(self)@.contains_key(word@) || old(self)@.len() < u32::MAX,
        ensures
            old(self)@.contains_key(word@) ==> *r == old(self)@[word@],
            !old(self)@.contains_key(word@) ==> r.id == old(self)@.len() && r.in_records@.len()
                == 0,
            !old(self)@.contains_key(word@) ==> forall|t: Seq<char>|
                #[trigger] old(self)@.contains_key(t) ==> old(self)@[t].id != r.id,
            r.wf(),
            final(self)@ == old(self)@.insert(word@, *final(r)),
            final(r).wf() && final(r).id == r.id ==> final(self).wf(),
    {
        let (b, found) = self.find(word);
        let ghost bs0 = self.buckets@;
        let j = match found {
            Some(j) => {
                proof {
                    lemma_bucket_entry(self.buckets@, b as int, j as int);
                }
                j
            },
            None => {
                let id = self.next_id;
                let name = String::from_str(word);
                let ghost m0 = self@;
                self.buckets[b].push((name, Word::new(id)));
                proof {
                    let e = self.buckets@[b as int]@.last();
                    lemma_bucket_push(bs0, b as int, self.buckets@[b as int], e.0, e.1);
                    assert(self@ == m0.insert(word@, e.1));
                    assert(self@.dom() == m0.dom().insert(word@));
                    assert forall|s: Seq<char>| #[trigger] self@.contains_key(s) && s != word@ implies self@[s].id < id by {
                        assert(m0.contains_key(s));
                    }
                }
                self.next_id = self.next_id + 1;
                self.buckets[b].len() - 1
            },
        };
        let ghost bs = self.buckets@;
        let ghost n = self.next_id;
        proof {
            lemma_bucket_entry(bs, b as int, j as int);
            let id0 = bs[b as int]@[j as int].1.id;
            assert forall|v: Vec<(String, Word)>|
                v@ == bs[b as int]@.update(j as int, (bs[b as int]@[j as int].0, v@[j as int].1)) implies
                #[trigger] view_of(bs.update(b as int, v)) == view_of(bs).insert(word@, v@[j as int].1)
                && buckets_wf(bs.update(b as int, v))
                && (v@[j as int].1.wf() && v@[j as int].1.id == id0 ==> index_wf(view_of(bs.update(b as int, v)), n)) by {
                let w = v@[j as int].1;
                lemma_bucket_set(bs, b as int, j as int, v, w);
            }
        }
        &mut self.buckets[b][j].1
    }

    /// Every indexed term, each once or more.
    pub fn terms(&self) -> (r: Vec<String>)
        requires
            self.wf(),
        ensures
            forall|k: int| 0 <= k < r@.len() ==> self@.contains_key(#[trigger] r@[k]@),
            forall|s: Seq<char>| #[trigger] self@.contains_key(s) ==> views(r@).contains(s),
    {
        let mut r: Vec<String> = Vec::new();
        let mut b: usize = 0;
        while b < N_BUCKETS
            invariant
                b <= N_BUCKETS,
                self.wf(),
                forall|k: int| 0 <= k < r@.len() ==> self@.contains_key(#[trigger] r@[k]@),
                forall|s: Seq<char>|
                    #[trigger] self@.contains_key(s) && bucket_of(s) < b ==> views(r@).contains(s),
            decreases N_BUCKETS - b,
        {
            let bk = &self.buckets[b];
            let mut j: usize = 0;
            while j < bk.len()
                invariant
                    j <= bk.len(),
                    b < N_BUCKETS,
                    self.wf(),
                    bk@ == self.buckets@[b as int]@,
                    forall|k: int| 0 <= k < r@.len() ==> self@.contains_key(#[trigger] r@[k]@),
                    forall|s: Seq<char>|
                        #[trigger] self@.contains_key(s) && bucket_of(s) < b ==> views(
                            r@,
                        ).contains(s),
                    forall|jj: int| 0 <= jj < j ==> views(r@).contains(#[trigger] bk@[jj].0@),
                decreases bk.len() - j,
            {
                proof {
                    lemma_bucket_entry(self.buckets@, b as int, j as int);
                }
                let ghost before = r@;
                r.push(bk[j].0.clone());
                proof {
                    assert(views(r@) == views(before).push(bk@[j as int].0@));
                    assert forall|x: Seq<char>| views(before).contains(x) implies views(r@).contains(x) by {
                        let k = choose|k: int| 0 <= k < views(before).len() && views(before)[k] == x;
                        assert(views(r@)[k] == x);
                    }
                    assert(views(r@)[before.len() as int] == bk@[j as int].0@);
                }
                j += 1;
            }
            proof {
                assert forall|s: Seq<char>|
                    #[trigger] self@.contains_key(s) && bucket_of(s) < b + 1 implies views(r@).contains(s) by {
                    if bucket_of(s) == b {
                        let k = entry_at(bk@, s);
                        assert(bk@[k].0@ == s);
                    }
                }
            }
            b += 1;
        }
        r
    }
}

} // verus!
