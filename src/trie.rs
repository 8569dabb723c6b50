//! The fuzzy term dictionary: the sorted set of indexed terms, searched for
//! the terms within a bounded edit distance of a query term.

use vstd::prelude::*;
use fst::IntoStreamer;
use crate::text::{all_ascii, is_ascii_text, views};

verus! {

/// The Levenshtein distance: the fewest single-character insertions,
/// deletions and substitutions that turn `a` into `b`.
pub open spec fn levenshtein(a: Seq<char>, b: Seq<char>) -> nat
    decreases a.len() + b.len(),
{
    if a.len() == 0 {
        b.len()
    } else if b.len() == 0 {
        a.len()
    } else {
        let sub = levenshtein(a.drop_last(), b.drop_last()) + (if a.last() == b.last() {
            0nat
        } else {
            1nat
        });
        let del = levenshtein(a.drop_last(), b) + 1;
        let ins = levenshtein(a, b.drop_last()) + 1;
        if sub <= del && sub <= ins {
            sub
        } else if del <= ins {
            del
        } else {
            ins
        }
    }
}

pub proof fn lemma_levenshtein_self(a: Seq<char>)
    ensures
        levenshtein(a, a) == 0,
    decreases a.len(),
{
    if a.len() > 0 {
        lemma_levenshtein_self(a.drop_last());
    }
}

pub proof fn lemma_levenshtein_zero(a: Seq<char>, b: Seq<char>)
    requires
        levenshtein(a, b) == 0,
    ensures
        a == b,
    decreases a.len() + b.len(),
{
    if a.len() == 0 {
        assert(b.len() == 0);
        assert(a =~= b);
    } else if b.len() == 0 {
    } else {
        lemma_levenshtein_zero(a.drop_last(), b.drop_last());
        assert(a == a.drop_last().push(a.last()));
        assert(b == b.drop_last().push(b.last()));
    }
}

/// Strict lexicographic order on sequences of code points; for strings this
/// is the order of their UTF-8 bytes.
pub open spec fn lex_lt(a: Seq<char>, b: Seq<char>) -> bool
    decreases a.len(),
{
    if a.len() == 0 {
        b.len() > 0
    } else if b.len() == 0 {
        false
    } else if a[0] != b[0] {
        (a[0] as int) < (b[0] as int)
    } else {
        lex_lt(a.drop_first(), b.drop_first())
    }
}

proof fn lemma_lex_antisym(a: Seq<char>, b: Seq<char>)
    requires
        !lex_lt(a, b),
        !lex_lt(b, a),
    ensures
        a == b,
    decreases a.len(),
{
    if a.len() > 0 && b.len() > 0 {
        if a[0] == b[0] {
            lemma_lex_antisym(a.drop_first(), b.drop_first());
            assert(a == seq![a[0]] + a.drop_first());
            assert(b == seq![b[0]] + b.drop_first());
        } else {
            assert((a[0] as int) != (b[0] as int));
        }
    } else {
        assert(a =~= b);
    }
}

/// Sorted: no element is less than one before it.
pub open spec fn lex_sorted(s: Seq<Seq<char>>) -> bool {
    forall|i: int, j: int| 0 <= i < j < s.len() ==> !lex_lt(#[trigger] s[j], #[trigger] s[i])
}

/// The terms of `ws` within `k` edits of `q`, in order.
pub open spec fn within(ws: Seq<Seq<char>>, q: Seq<char>, k: nat) -> Seq<Seq<char>>
    decreases ws.len(),
{
    if ws.len() == 0 {
        seq![]
    } else {
        let r = within(ws.drop_last(), q, k);
        if levenshtein(q, ws.last()) <= k {
            r.push(ws.last())
        } else {
            r
        }
    }
}

/// The terms of `ws` within `k` edits of `q`, in order, each with its distance.
pub open spec fn fuzzy_spec(ws: Seq<Seq<char>>, q: Seq<char>, k: nat) -> Seq<(Seq<char>, nat)>
    decreases ws.len(),
{
    if ws.len() == 0 {
        seq![]
    } else {
        let r = fuzzy_spec(ws.drop_last(), q, k);
        let d = levenshtein(q, ws.last());
        if d <= k {
            r.push((ws.last(), d))
        } else {
            r
        }
    }
}

pub open spec fn match_views(v: Seq<(String, usize)>) -> Seq<(Seq<char>, nat)> {
    v.map_values(|p: (String, usize)| (p.0@, p.1 as nat))
}

proof fn lemma_fuzzy_within(ws: Seq<Seq<char>>, q: Seq<char>, k: nat)
    ensures
        fuzzy_spec(ws, q, k) == within(ws, q, k).map_values(|t: Seq<char>| (t, levenshtein(q, t))),
    decreases ws.len(),
{
    if ws.len() > 0 {
        lemma_fuzzy_within(ws.drop_last(), q, k);
        let w = within(ws.drop_last(), q, k);
        assert(w.push(ws.last()).map_values(|t: Seq<char>| (t, levenshtein(q, t))) =~= w.map_values(
            |t: Seq<char>| (t, levenshtein(q, t)),
        ).push((ws.last(), levenshtein(q, ws.last()))));
    }
}

/// With no duplicates in `ws`, the terms with no edit from `t` are `t`
/// alone when `ws` holds it, and none otherwise.
proof fn lemma_fuzzy_exact(ws: Seq<Seq<char>>, t: Seq<char>)
    requires
        ws.no_duplicates(),
    ensures
        fuzzy_spec(ws, t, 0) == (if ws.contains(t) {
            seq![(t, 0nat)]
        } else {
            seq![]
        }),
    decreases ws.len(),
{
    if ws.len() > 0 {
        let p = ws.drop_last();
        let x = ws.last();
        assert(p.no_duplicates());
        lemma_fuzzy_exact(p, t);
        if x == t {
            lemma_levenshtein_self(t);
            if p.contains(t) {
                let k = choose|k: int| 0 <= k < p.len() && p[k] == t;
                assert(ws[k] == ws[ws.len() - 1]);
            }
            assert(ws.contains(t)) by {
                assert(ws[ws.len() - 1] == t);
            }
        } else {
            if levenshtein(t, x) == 0 {
                lemma_levenshtein_zero(t, x);
            }
            if ws.contains(t) {
                let k = choose|k: int| 0 <= k < ws.len() && ws[k] == t;
                assert(p[k] == t);
            }
            if p.contains(t) {
                let k = choose|k: int| 0 <= k < p.len() && p[k] == t;
                assert(ws[k] == t);
            }
        }
    }
}

/// A term of the dictionary, looked up with no edits allowed, matches
/// exactly itself, at distance 0.
pub proof fn lemma_exact_term_matches_itself(trie: &Trie, t: Seq<char>)
    requires
        trie.wf(),
        trie@.contains(t),
    ensures
        fuzzy_spec(trie@, t, 0) == seq![(t, 0nat)],
{
    trie.lemma_wf();
    lemma_fuzzy_exact(trie@, t);
}

/// The edit budget of a query token of `n` characters: for the last token
/// of the query the floor of `min(n^0.8, 3)`, otherwise 2 for tokens longer
/// than 4 characters and 1 for the others.
pub open spec fn allowed_errors(n: nat, is_last: bool) -> nat {
    if is_last {
        if n == 0 {
            0
        } else if n <= 2 {
            1
        } else if n == 3 {
            2
        } else {
            3
        }
    } else if n > 4 {
        2
    } else {
        1
    }
}

/// The edit budget of the query token `w`, whose length is counted in
/// characters; for the ASCII tokens that normalization yields this is also
/// its length in bytes.
pub fn nr_allowed_errors(w: &str, is_last: bool) -> (r: usize)
    ensures
        r == allowed_errors(w@.len(), is_last),
{
    let n = w.unicode_len();
    if is_last {
        if n == 0 {
            0
        } else if n <= 2 {
            1
        } else if n == 3 {
            2
        } else {
            3
        }
    } else if n > 4 {
        2
    } else {
        1
    }
}

#[verifier::external_type_specification]
#[verifier::external_body]
#[verifier::reject_recursive_types(D)]
pub struct ExFstSet<D>(fst::Set<D>);

#[verifier::external_type_specification]
#[verifier::external_body]
pub struct ExFstError(fst::Error);

/// The keys of an fst set, as strings, in the set's order.
pub uninterp spec fn fst_keys(s: fst::Set<Vec<u8>>) -> Seq<Seq<char>>;

/// Relies on `fst::Set::from_iter`: given distinct keys, on success the set
/// holds exactly those keys, which were then in increasing order.
#[verifier::external_body]
fn build_fst(words: &Vec<String>) -> (r: Result<fst::Set<Vec<u8>>, fst::Error>)
    requires
        views(words@).no_duplicates(),
    ensures
        r matches Ok(s) ==> fst_keys(s) == views(words@),
{
    fst::Set::from_iter(words.iter())
}

/// Relies on `fst::automaton::Levenshtein` run through `fst::Set::search`:
/// the keys within `k` character insertions, deletions and substitutions of
/// `q`, in the set's order, for an ASCII query. `None` when the automaton
/// grows past its size limit or a key is not UTF-8.
#[verifier::external_body]
fn fst_fuzzy(s: &fst::Set<Vec<u8>>, q: &str, k: u32) -> (r: Option<Vec<String>>)
    requires
        all_ascii(q@),
    ensures
        r matches Some(v) ==> views(v@) == within(fst_keys(*s), q@, k as nat),
{
    let lev = match fst::automaton::Levenshtein::new(q, k) {
        Ok(lev) => lev,
        Err(_) => return None,
    };
    match s.search(lev).into_stream().into_strs() {
        Ok(v) => Some(v),
        Err(_) => None,
    }
}

/// Relies on `edit_distance::edit_distance`: the Levenshtein distance over
/// characters.
#[verifier::external_body]
fn edit_distance_of(a: &str, b: &str) -> (r: usize)
    ensures
        r == levenshtein(a@, b@),
{
    edit_distance::edit_distance(a, b)
}

/// Relies on `slice::sort`: a permutation in ascending order; `String`s
/// compare by their UTF-8 bytes, that is by their code points.
#[verifier::external_body]
fn sort_strings(v: &mut Vec<String>)
    ensures
        views(final(v)@).to_multiset() == views(old(v)@).to_multiset(),
        final(v)@.len() == old(v)@.len(),
        lex_sorted(views(final(v)@)),
{
    v.sort()
}

/// The fuzzy term dictionary: the distinct terms in ascending order, and an
/// fst over them for the automaton search.
pub struct Trie {
    words: Vec<String>,
    fst: Option<fst::Set<Vec<u8>>>,
}

impl Trie {
    pub closed spec fn view(&self) -> Seq<Seq<char>> {
        views(self.words@)
    }

    pub closed spec fn wf(&self) -> bool {
        &&& self@.no_duplicates()
        &&& lex_sorted(self@)
        &&& self.fst matches Some(s) ==> fst_keys(s) == self@
    }

    pub proof fn lemma_wf(&self)
        requires
            self.wf(),
        ensures
            self@.no_duplicates(),
            lex_sorted(self@),
    {
    }

    /// The dictionary of the distinct `words`, in ascending order.
    pub fn new(words: Vec<String>) -> (r: Trie)
        ensures
            r.wf(),
            forall|t: Seq<char>| r@.contains(t) <==> views(words@).contains(t),
    {
        let mut v = words;
        sort_strings(&mut v);
        let ghost sv = views(v@);
        proof {
            broadcast use vstd::seq_lib::group_to_multiset_ensures;
            assert forall|t: Seq<char>| sv.contains(t) <==> views(words@).contains(t) by {
                assert(sv.to_multiset().count(t) == views(words@).to_multiset().count(t));
            }
        }
        let mut out: Vec<String> = Vec::new();
        let mut i: usize = 0;
        while i < v.len()
            invariant
                i <= v.len(),
                sv == views(v@),
                lex_sorted(sv),
                views(out@).no_duplicates(),
                lex_sorted(views(out@)),
                forall|k: int| 0 <= k < out@.len() ==> exists|m: int| 0 <= m < i && #[trigger] out@[k]@ == sv[m],
                forall|m: int| 0 <= m < i ==> views(out@).contains(#[trigger] sv[m]),
                i > 0 ==> out@.len() > 0 && out@.last()@ == sv[i - 1],
            decreases v.len() - i,
        {
            let fresh = out.len() == 0 || out[out.len() - 1] != v[i];
            if fresh {
                let ghost before = out@;
                let w = v[i].clone();
                proof {
                    assert forall|k: int| 0 <= k < before.len() implies before[k]@ != sv[i as int] && !lex_lt(sv[i as int], #[trigger] before[k]@) by {
                        let m = choose|m: int| 0 <= m < i && #[trigger] before[k]@ == sv[m];
                        assert(!lex_lt(sv[i as int], sv[m]));
                        if before[k]@ == sv[i as int] && m < i - 1 {
                            assert(!lex_lt(sv[i - 1], sv[m]));
                            lemma_lex_antisym(sv[i - 1], sv[i as int]);
                        }
                    }
                }
                out.push(w);
                proof {
                    assert(views(out@) == views(before).push(sv[i as int]));
                    assert forall|a: int, b: int| 0 <= a < b < views(out@).len() implies views(out@)[a] != views(out@)[b] by {
                        if b == before.len() {
                            assert(views(out@)[a] == before[a]@);
                        } else {
                            assert(views(before)[a] == views(out@)[a]);
                            assert(views(before)[b] == views(out@)[b]);
                        }
                    }
                    assert forall|a: int, b: int| 0 <= a < b < views(out@).len() implies !lex_lt(#[trigger] views(out@)[b], #[trigger] views(out@)[a]) by {
                        if b == before.len() {
                            assert(views(out@)[a] == before[a]@);
                        } else {
                            assert(views(before)[a] == views(out@)[a]);
                            assert(views(before)[b] == views(out@)[b]);
                        }
                    }
                    assert forall|k: int| 0 <= k < out@.len() implies exists|m: int| 0 <= m < i + 1 && #[trigger] out@[k]@ == sv[m] by {
                        if k < before.len() {
                            assert(out@[k] == before[k]);
                        } else {
                            assert(out@[k]@ == sv[i as int]);
                        }
                    }
                    assert forall|m: int| 0 <= m < i + 1 implies views(out@).contains(#[trigger] sv[m]) by {
                        if m < i {
                            let k = choose|k: int| 0 <= k < views(before).len() && views(before)[k] == sv[m];
                            assert(views(out@)[k] == sv[m]);
                        } else {
                            assert(views(out@)[before.len() as int] == sv[m]);
                        }
                    }
                }
            } else {
                proof {
                    assert(out@.last()@ == sv[i as int]);
                    assert forall|k: int| 0 <= k < out@.len() implies exists|m: int| 0 <= m < i + 1 && #[trigger] out@[k]@ == sv[m] by {
                        let m = choose|m: int| 0 <= m < i && #[trigger] out@[k]@ == sv[m];
                    }
                    assert(views(out@)[out@.len() - 1] == sv[i as int]);
                }
            }
            i += 1;
        }
        let fst = match build_fst(&out) {
            Ok(s) => Some(s),
            Err(_) => None,
        };
        let r = Trie { words: out, fst };
        proof {
            assert forall|t: Seq<char>| r@.contains(t) <==> views(words@).contains(t) by {
                if r@.contains(t) {
                    let k = choose|k: int| 0 <= k < r@.len() && r@[k] == t;
                    assert(r.words@[k]@ == t);
                    let m = choose|m: int| 0 <= m < v@.len() && #[trigger] r.words@[k]@ == sv[m];
                    assert(sv.contains(t));
                }
                if sv.contains(t) {
                    let m = choose|m: int| 0 <= m < sv.len() && sv[m] == t;
                    assert(views(r.words@).contains(sv[m]));
                }
            }
        }
        r
    }

    /// The dictionary terms within `k` edits of `query`, in ascending order,
    /// each with its exact edit distance.
    pub fn find_words(&self, query: &str, k: usize) -> (r: Vec<(String, usize)>)
        requires
            self.wf(),
        ensures
            match_views(r@) == fuzzy_spec(self@, query@, k as nat),
    {
        // The automaton is used for ASCII queries only; others are matched by
        // a scan of the dictionary.
        let found = if k <= u32::MAX as usize && is_ascii_text(query) {
            match &self.fst {
                Some(s) => fst_fuzzy(s, query, k as u32),
                None => None,
            }
        } else {
            None
        };
        let mut out: Vec<(String, usize)> = Vec::new();
        match found {
            Some(terms) => {
                let ghost tv = views(terms@);
                proof {
                    lemma_fuzzy_within(self@, query@, k as nat);
                }
                let mut i: usize = 0;
                while i < terms.len()
                    invariant
                        i <= terms.len(),
                        tv == views(terms@),
                        tv == within(self@, query@, k as nat),
                        fuzzy_spec(self@, query@, k as nat) == tv.map_values(
                            |t: Seq<char>| (t, levenshtein(query@, t)),
                        ),
                        match_views(out@) == tv.take(i as int).map_values(
                            |t: Seq<char>| (t, levenshtein(query@, t)),
                        ),
                    decreases terms.len() - i,
                {
                    let d = edit_distance_of(query, terms[i].as_str());
                    let ghost before = out@;
                    out.push((terms[i].clone(), d));
                    proof {
                        assert(match_views(out@) == match_views(before).push((tv[i as int], d as nat)));
                        assert(tv.take(i + 1) == tv.take(i as int).push(tv[i as int]));
                        assert(tv.take(i + 1).map_values(|t: Seq<char>| (t, levenshtein(query@, t)))
                            =~= tv.take(i as int).map_values(|t: Seq<char>| (t, levenshtein(query@, t))).push(
                                (tv[i as int], levenshtein(query@, tv[i as int]))));
                    }
                    i += 1;
                }
                assert(tv.take(terms.len() as int) == tv);
            },
            None => {
                let mut i: usize = 0;
                while i < self.words.len()
                    invariant
                        i <= self.words.len(),
                        match_views(out@) == fuzzy_spec(self@.take(i as int), query@, k as nat),
                    decreases self.words.len() - i,
                {
                    let ghost p = self@.take(i as int);
                    assert(self@.take(i + 1).drop_last() == p);
                    assert(self@.take(i + 1).last() == self.words@[i as int]@);
                    let d = edit_distance_of(query, self.words[i].as_str());
                    if d <= k {
                        let ghost before = out@;
                        out.push((self.words[i].clone(), d));
                        assert(match_views(out@) == match_views(before).push((self.words@[i as int]@, d as nat)));
                    }
                    i += 1;
                }
                assert(self@.take(self.words.len() as int) == self@);
            },
        }
        out
    }
}

} // verus!
