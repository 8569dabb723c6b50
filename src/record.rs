//! Ranking one candidate: the best alignment of the query words with the
//! document's words, its proximity distance, and the highlighted text.

use vstd::prelude::*;
use crate::text::{chars_of, join_words, joined, lower_of, lowercase, push_chars, split_words, string_from_chars, views, words_of};

verus! {

/// The positions at which `w` occurs in `ws`, ascending.
pub open spec fn positions_of(ws: Seq<Seq<char>>, w: Seq<char>) -> Seq<usize>
    decreases ws.len(),
{
    if ws.len() == 0 {
        seq![]
    } else {
        let p = positions_of(ws.drop_last(), w);
        if ws.last() == w {
            p.push((ws.len() - 1) as usize)
        } else {
            p
        }
    }
}

/// The distinct words of the query `q`, in order of first occurrence, that
/// occur in the document words `rt`.
pub open spec fn align_words(q: Seq<Seq<char>>, rt: Seq<Seq<char>>) -> Seq<Seq<char>>
    decreases q.len(),
{
    if q.len() == 0 {
        seq![]
    } else {
        let a = align_words(q.drop_last(), rt);
        let w = q.last();
        if q.drop_last().contains(w) || !rt.contains(w) {
            a
        } else {
            a.push(w)
        }
    }
}

pub open spec fn min_nat(a: nat, b: nat) -> nat {
    if a <= b {
        a
    } else {
        b
    }
}

/// The alignment list: for each aligned word, its positions in the document
/// and how many of them to place at once (its count in the query, at most
/// its count in the document).
pub open spec fn align_entries(q: Seq<Seq<char>>, rt: Seq<Seq<char>>) -> Seq<(Seq<usize>, nat)> {
    align_words(q, rt).map_values(
        |w: Seq<char>|
            (positions_of(rt, w), min_nat(positions_of(q, w).len(), positions_of(rt, w).len())),
    )
}

/// The number of windows of entry `e`.
pub open spec fn n_windows(es: Seq<(Seq<usize>, nat)>, e: int) -> int {
    es[e].0.len() - es[e].1 + 1
}

/// The combinations of entries `e..` whose window in entry `e` starts before
/// `w`, in enumeration order: one window of each entry, concatenated.
pub open spec fn combos_upto(es: Seq<(Seq<usize>, nat)>, e: int, w: int) -> Seq<Seq<usize>>
    decreases es.len() - e, w,
{
    if e < 0 || e >= es.len() {
        seq![seq![]]
    } else if w <= 0 {
        seq![]
    } else {
        combos_upto(es, e, w - 1) + combos_upto(es, e + 1, n_windows(es, e + 1)).map_values(
            |c: Seq<usize>| es[e].0.subrange(w - 1, w - 1 + es[e].1) + c,
        )
    }
}

/// Every alignment of the entries, in enumeration order.
pub open spec fn combos(es: Seq<(Seq<usize>, nat)>) -> Seq<Seq<usize>> {
    combos_upto(es, 0, n_windows(es, 0))
}

/// How many elements of `c` are below `x`: the index of `x` once `c` is
/// sorted ascending.
pub open spec fn rank_in(c: Seq<usize>, x: usize) -> nat
    decreases c.len(),
{
    if c.len() == 0 {
        0
    } else {
        rank_in(c.drop_last(), x) + (if c.last() < x {
            1nat
        } else {
            0nat
        })
    }
}

/// The proximity distance of the first `j` elements of the alignment `c`:
/// the squared gap between each position and its index in ascending order.
pub open spec fn dist_upto(c: Seq<usize>, j: int) -> nat
    decreases j,
{
    if j <= 0 {
        0
    } else {
        let x = c[j - 1];
        let g = x - rank_in(c, x);
        dist_upto(c, j - 1) + (g * g) as nat
    }
}

/// The proximity distance of `c`, capped at `u64::MAX`.
pub open spec fn distance_of(c: Seq<usize>) -> u64 {
    let d = dist_upto(c, c.len() as int);
    if d >= u64::MAX {
        u64::MAX
    } else {
        d as u64
    }
}

/// The least distance among the first `n` alignments, and the first
/// alignment that reaches it; a distance of `u64::MAX` never wins.
pub open spec fn best_upto(cs: Seq<Seq<usize>>, n: int) -> (u64, Option<int>)
    decreases n,
{
    if n <= 0 {
        (u64::MAX, None)
    } else {
        let (mn, b) = best_upto(cs, n - 1);
        let d = distance_of(cs[n - 1]);
        if d < mn {
            (d, Some(n - 1))
        } else {
            (mn, b)
        }
    }
}

/// The document's lowercased words, where the query words are looked for.
pub open spec fn record_tokens(text: Seq<char>) -> Seq<Seq<char>> {
    words_of(lower_of(text))
}

/// `x` put into the ascending sequence `s`, after the elements not above it.
pub open spec fn insert_sorted(s: Seq<usize>, x: usize) -> Seq<usize>
    decreases s.len(),
{
    if s.len() == 0 || s.last() <= x {
        s.push(x)
    } else {
        insert_sorted(s.drop_last(), x).push(s.last())
    }
}

/// `c` sorted ascending (by insertion).
pub open spec fn sort_seq(c: Seq<usize>) -> Seq<usize>
    decreases c.len(),
{
    if c.len() == 0 {
        c
    } else {
        insert_sorted(sort_seq(c.drop_last()), c.last())
    }
}

pub open spec fn ascending(s: Seq<usize>) -> bool {
    forall|i: int, j: int| 0 <= i < j < s.len() ==> s[i] <= s[j]
}

/// Every alignment of the entries, each sorted ascending, in enumeration
/// order.
pub open spec fn sorted_combos(es: Seq<(Seq<usize>, nat)>) -> Seq<Seq<usize>> {
    combos(es).map_values(|c: Seq<usize>| sort_seq(c))
}

/// The similarity of the query tokens `q` to a document whose lowercased
/// words are `rt`: the least proximity distance over all alignments, or
/// `u64::MAX` when no query word occurs among them.
pub open spec fn similarity_of(q: Seq<Seq<char>>, rt: Seq<Seq<char>>) -> u64 {
    let es = align_entries(q, rt);
    if es.len() == 0 {
        u64::MAX
    } else {
        best_upto(sorted_combos(es), sorted_combos(es).len() as int).0
    }
}

/// The similarity of a document to the query tokens `q`.
pub open spec fn similarity_spec(q: Seq<Seq<char>>, text: Seq<char>) -> u64 {
    similarity_of(q, record_tokens(text))
}


/// The positions of `w` in `ws`, ascending.
fn positions_in(ws: &Vec<String>, w: &String) -> (r: Vec<usize>)
    ensures
        r@ == positions_of(views(ws@), w@),
{
    let mut r: Vec<usize> = Vec::new();
    let mut i: usize = 0;
    while i < ws.len()
        invariant
            i <= ws.len(),
            r@ == positions_of(views(ws@).take(i as int), w@),
        decreases ws.len() - i,
    {
        assert(views(ws@).take(i + 1).drop_last() == views(ws@).take(i as int));
        if ws[i] == *w {
            r.push(i);
        }
        i += 1;
    }
    assert(views(ws@).take(ws.len() as int) == views(ws@));
    r
}

fn contains_word(ws: &Vec<String>, n: usize, w: &String) -> (r: bool)
    requires
        n <= ws.len(),
    ensures
        r == views(ws@).take(n as int).contains(w@),
{
    let mut i: usize = 0;
    while i < n
        invariant
            i <= n,
            n <= ws.len(),
            forall|k: int| 0 <= k < i ==> ws@[k]@ != w@,
        decreases n - i,
    {
        if ws[i] == *w {
            assert(views(ws@).take(n as int)[i as int] == w@);
            return true;
        }
        i += 1;
    }
    proof {
        if views(ws@).take(n as int).contains(w@) {
            let k = choose|k: int| 0 <= k < n && views(ws@).take(n as int)[k] == w@;
            assert(ws@[k]@ == w@);
        }
    }
    false
}

pub open spec fn entries_view(v: Seq<(Vec<usize>, usize)>) -> Seq<(Seq<usize>, nat)> {
    v.map_values(|e: (Vec<usize>, usize)| (e.0@, e.1 as nat))
}

/// The alignment list of the query tokens `q` against the document words `rt`.
fn alignment_entries(q: &Vec<String>, rt: &Vec<String>) -> (r: Vec<(Vec<usize>, usize)>)
    ensures
        entries_view(r@) == align_entries(views(q@), views(rt@)),
{
    let ghost qv = views(q@);
    let ghost rv = views(rt@);
    let mut r: Vec<(Vec<usize>, usize)> = Vec::new();
    let rn = rt.len();
    let mut i: usize = 0;
    while i < q.len()
        invariant
            i <= q.len(),
            rv.len() == rn,
            qv == views(q@),
            rv == views(rt@),
            entries_view(r@) == align_words(qv.take(i as int), rv).map_values(
                |w: Seq<char>|
                    (positions_of(rv, w), min_nat(positions_of(qv, w).len(), positions_of(rv, w).len())),
            ),
        decreases q.len() - i,
    {
        let ghost pre = qv.take(i as int);
        let ghost nxt = qv.take(i + 1);
        assert(nxt.drop_last() == pre);
        assert(nxt.last() == q@[i as int]@);
        let seen = contains_word(q, i, &q[i]);
        if !seen {
            let ps = positions_in(rt, &q[i]);
            if ps.len() > 0 {
                proof {
                    assert(rv.contains(q@[i as int]@)) by {
                        lemma_positions_of(rv, q@[i as int]@);
                        assert(rv[ps@[0] as int] == q@[i as int]@);
                    }
                }
                let qs = positions_in(q, &q[i]);
                let step = if qs.len() <= ps.len() { qs.len() } else { ps.len() };
                let ghost before = r@;
                r.push((ps, step));
                proof {
                    let f = |w: Seq<char>|
                        (positions_of(rv, w), min_nat(positions_of(qv, w).len(), positions_of(rv, w).len()));
                    assert(entries_view(r@) == entries_view(before).push((ps@, step as nat)));
                    assert(align_words(nxt, rv) == align_words(pre, rv).push(q@[i as int]@));
                    assert(align_words(nxt, rv).map_values(f) =~= align_words(pre, rv).map_values(f).push(f(q@[i as int]@)));
                }
            } else {
                proof {
                    if rv.contains(q@[i as int]@) {
                        let k = choose|k: int| 0 <= k < rv.len() && rv[k] == q@[i as int]@;
                        lemma_positions_of(rv, q@[i as int]@);
                        assert(positions_of(rv, q@[i as int]@).contains(k as usize));
                    }
                }
            }
        }
        i += 1;
    }
    assert(qv.take(q.len() as int) == qv);
    r
}

/// `positions_of` lists exactly the positions holding `w`, ascending.
proof fn lemma_positions_of(ws: Seq<Seq<char>>, w: Seq<char>)
    requires
        ws.len() <= usize::MAX,
    ensures
        forall|k: int| 0 <= k < positions_of(ws, w).len() ==> #[trigger] positions_of(ws, w)[k] < ws.len() && ws[positions_of(ws, w)[k] as int] == w,
        forall|k: int| 0 <= k < ws.len() && ws[k] == w ==> positions_of(ws, w).contains(k as usize),
        forall|a: int, b: int| 0 <= a < b < positions_of(ws, w).len() ==> positions_of(ws, w)[a] < positions_of(ws, w)[b],
    decreases ws.len(),
{
    if ws.len() > 0 {
        let p = ws.drop_last();
        lemma_positions_of(p, w);
        let pp = positions_of(p, w);
        let r = positions_of(ws, w);
        assert forall|k: int| 0 <= k < r.len() implies #[trigger] r[k] < ws.len() && ws[r[k] as int] == w by {
            if k < pp.len() {
                assert(r[k] == pp[k]);
                assert(ws[pp[k] as int] == p[pp[k] as int]);
            }
        }
        assert forall|a: int, b: int| 0 <= a < b < r.len() implies r[a] < r[b] by {
            if b < pp.len() {
                assert(r[a] == pp[a]);
                assert(r[b] == pp[b]);
            } else {
                assert(r[a] == pp[a]);
                assert(pp[a] < p.len());
            }
        }
        assert forall|k: int| 0 <= k < ws.len() && ws[k] == w implies r.contains(k as usize) by {
            if k < ws.len() - 1 {
                assert(p[k] == w);
                let t = choose|t: int| 0 <= t < pp.len() && pp[t] == k as usize;
                assert(r[t] == k as usize);
            } else {
                assert(r[r.len() - 1] == k as usize);
            }
        }
    }
}


pub open spec fn vviews(v: Seq<Vec<usize>>) -> Seq<Seq<usize>> {
    v.map_values(|c: Vec<usize>| c@)
}

/// Each entry places at least one and at most all of its positions.
pub open spec fn entries_ok(es: Seq<(Seq<usize>, nat)>) -> bool {
    forall|e: int| 0 <= e < es.len() ==> 1 <= (#[trigger] es[e]).1 <= es[e].0.len()
}

proof fn lemma_align_words_in(q: Seq<Seq<char>>, rt: Seq<Seq<char>>)
    ensures
        forall|e: int| 0 <= e < align_words(q, rt).len() ==> q.contains(#[trigger] align_words(q, rt)[e]) && rt.contains(align_words(q, rt)[e]),
    decreases q.len(),
{
    if q.len() > 0 {
        let p = q.drop_last();
        lemma_align_words_in(p, rt);
        let a = align_words(q, rt);
        let ap = align_words(p, rt);
        assert forall|e: int| 0 <= e < a.len() implies q.contains(#[trigger] a[e]) && rt.contains(a[e]) by {
            if e < ap.len() {
                assert(a[e] == ap[e]);
                let t = choose|t: int| 0 <= t < p.len() && p[t] == a[e];
                assert(q[t] == a[e]);
            } else {
                assert(q[q.len() - 1] == a[e]);
            }
        }
    }
}

proof fn lemma_align_entries_ok(q: Seq<Seq<char>>, rt: Seq<Seq<char>>)
    requires
        q.len() <= usize::MAX,
        rt.len() <= usize::MAX,
    ensures
        entries_ok(align_entries(q, rt)),
{
    let es = align_entries(q, rt);
    lemma_align_words_in(q, rt);
    assert forall|e: int| 0 <= e < es.len() implies 1 <= (#[trigger] es[e]).1 <= es[e].0.len() by {
        let w = align_words(q, rt)[e];
        assert(es[e] == (positions_of(rt, w), min_nat(positions_of(q, w).len(), positions_of(rt, w).len())));
        lemma_positions_of(q, w);
        lemma_positions_of(rt, w);
        let kq = choose|k: int| 0 <= k < q.len() && q[k] == w;
        let kr = choose|k: int| 0 <= k < rt.len() && rt[k] == w;
        assert(positions_of(q, w).contains(kq as usize));
        assert(positions_of(rt, w).contains(kr as usize));
    }
}

/// Appends to `result` every alignment of the entries `e..`, each after the
/// positions `current` already chosen.
fn generate_combinations(
    es: &Vec<(Vec<usize>, usize)>,
    current: &Vec<usize>,
    e: usize,
    result: &mut Vec<Vec<usize>>,
)
    requires
        e <= es.len(),
        entries_ok(entries_view(es@)),
    ensures
        vviews(final(result)@) == vviews(old(result)@) + combos_upto(
            entries_view(es@),
            e as int,
            n_windows(entries_view(es@), e as int),
        ).map_values(|c: Seq<usize>| current@ + c),
    decreases es.len() - e,
{
    let ghost ev = entries_view(es@);
    if e == es.len() {
        let ghost before = result@;
        result.push(copy_positions(current));
        proof {
            assert(vviews(result@) == vviews(before).push(current@));
            assert(seq![seq![]].map_values(|c: Seq<usize>| current@ + c) =~= seq![current@]);
            assert(current@ + seq![] == current@);
        }
        return;
    }
    let ps = &es[e].0;
    let step = es[e].1;
    assert(ev[e as int] == (ps@, step as nat));
    let nw = ps.len() - step + 1;
    let ghost start = vviews(result@);
    let ghost rest = combos_upto(ev, e + 1, n_windows(ev, e + 1));
    let mut w: usize = 0;
    while w < nw
        invariant
            w <= nw,
            e < es.len(),
            ev == entries_view(es@),
            entries_ok(ev),
            ps@ == ev[e as int].0,
            step == ev[e as int].1,
            nw == n_windows(ev, e as int),
            rest == combos_upto(ev, e + 1, n_windows(ev, e + 1)),
            vviews(result@) == start + combos_upto(ev, e as int, w as int).map_values(
                |c: Seq<usize>| current@ + c,
            ),
        decreases nw - w,
    {
        let mut nc = copy_positions(current);
        let mut t: usize = w;
        while t < w + step
            invariant
                w < nw,
                nw == ps.len() - step + 1,
                w <= t <= w + step,
                nc@ == current@ + ps@.subrange(w as int, t as int),
            decreases w + step - t,
        {
            nc.push(ps[t]);
            assert(ps@.subrange(w as int, t + 1) == ps@.subrange(w as int, t as int).push(ps@[t as int]));
            t += 1;
        }
        let ghost mid = vviews(result@);
        generate_combinations(es, &nc, e + 1, result);
        proof {
            let win = ps@.subrange(w as int, w + step);
            let f = |c: Seq<usize>| current@ + c;
            let g = |c: Seq<usize>| ev[e as int].0.subrange(w as int, w + ev[e as int].1) + c;
            let h = |c: Seq<usize>| nc@ + c;
            assert(rest.map_values(h) =~= rest.map_values(g).map_values(f)) by {
                assert forall|k: int| 0 <= k < rest.len() implies rest.map_values(h)[k] == rest.map_values(g).map_values(f)[k] by {
                    assert(nc@ + rest[k] =~= current@ + (win + rest[k]));
                }
            }
            assert(combos_upto(ev, e as int, w + 1) == combos_upto(ev, e as int, w as int) + rest.map_values(g));
            assert((combos_upto(ev, e as int, w as int) + rest.map_values(g)).map_values(f) =~= combos_upto(ev, e as int, w as int).map_values(f) + rest.map_values(g).map_values(f));
        }
        w += 1;
    }
}

fn copy_positions(v: &Vec<usize>) -> (r: Vec<usize>)
    ensures
        r@ == v@,
{
    let mut r: Vec<usize> = Vec::new();
    let mut i: usize = 0;
    while i < v.len()
        invariant
            i <= v.len(),
            r@ == v@.take(i as int),
        decreases v.len() - i,
    {
        r.push(v[i]);
        assert(v@.take(i + 1) == v@.take(i as int).push(v@[i as int]));
        i += 1;
    }
    assert(v@.take(v.len() as int) == v@);
    r
}

fn rank_of(c: &Vec<usize>, x: usize) -> (r: usize)
    ensures
        r == rank_in(c@, x),
{
    let mut r: usize = 0;
    let mut i: usize = 0;
    while i < c.len()
        invariant
            i <= c.len(),
            r == rank_in(c@.take(i as int), x),
            r <= i,
        decreases c.len() - i,
    {
        assert(c@.take(i + 1).drop_last() == c@.take(i as int));
        if c[i] < x {
            r += 1;
        }
        i += 1;
    }
    assert(c@.take(c.len() as int) == c@);
    r
}

/// The proximity distance of the alignment `c`, capped at `u64::MAX`.
pub fn alignment_distance(c: &Vec<usize>) -> (r: u64)
    ensures
        r == distance_of(c@),
{
    let mut acc: u64 = 0;
    let mut j: usize = 0;
    while j < c.len()
        invariant
            j <= c.len(),
            acc as nat == (if dist_upto(c@, j as int) >= u64::MAX { u64::MAX as nat } else { dist_upto(c@, j as int) }),
        decreases c.len() - j,
    {
        let x = c[j];
        let rk = rank_of(c, x);
        let g: u64 = if x >= rk { (x - rk) as u64 } else { (rk - x) as u64 };
        let gw = g as u128;
        assert(gw * gw <= 0xFFFF_FFFF_FFFF_FFFE_0000_0000_0000_0001u128) by (nonlinear_arith)
            requires gw <= 0xFFFF_FFFF_FFFF_FFFFu128;
        let sq: u128 = gw * gw;
        assert((g as int) * (g as int) == (x - rk) * (x - rk)) by (nonlinear_arith)
            requires g as int == x - rk || g as int == rk - x;
        let total: u128 = acc as u128 + sq;
        acc = if total >= 0xFFFF_FFFF_FFFF_FFFFu128 { u64::MAX } else { total as u64 };
        j += 1;
    }
    acc
}

/// The least distance among the alignments `cs` and the first alignment
/// that reaches it.
fn best_alignment(cs: &Vec<Vec<usize>>) -> (r: (u64, Option<usize>))
    ensures
        r.0 == best_upto(vviews(cs@), cs@.len() as int).0,
        match best_upto(vviews(cs@), cs@.len() as int).1 {
            Some(b) => r.1 == Some(b as usize) && 0 <= b < cs@.len(),
            None => r.1 is None,
        },
{
    let mut mn: u64 = u64::MAX;
    let mut best: Option<usize> = None;
    let mut i: usize = 0;
    while i < cs.len()
        invariant
            i <= cs.len(),
            mn == best_upto(vviews(cs@), i as int).0,
            match best_upto(vviews(cs@), i as int).1 {
                Some(b) => best == Some(b as usize) && 0 <= b < i,
                None => best is None,
            },
        decreases cs.len() - i,
    {
        let d = alignment_distance(&cs[i]);
        assert(vviews(cs@)[i as int] == cs@[i as int]@);
        if d < mn {
            mn = d;
            best = Some(i);
        }
        i += 1;
    }
    (mn, best)
}


/// What a piece of a character-level diff is.
#[derive(Clone, Copy, PartialEq, Eq, Debug, Structural)]
pub enum DiffKind {
    Same,
    Add,
    Rem,
}

/// A piece of a character-level diff: text common to both sides, only in
/// the second, or only in the first.
#[derive(Debug)]
pub enum DiffPart {
    Same(String),
    Add(String),
    Rem(String),
}

impl DiffPart {
    pub open spec fn view(&self) -> (DiffKind, Seq<char>) {
        match self {
            DiffPart::Same(s) => (DiffKind::Same, s@),
            DiffPart::Add(s) => (DiffKind::Add, s@),
            DiffPart::Rem(s) => (DiffKind::Rem, s@),
        }
    }
}

pub open spec fn part_views(v: Seq<DiffPart>) -> Seq<(DiffKind, Seq<char>)> {
    v.map_values(|p: DiffPart| p@)
}

/// The character-level diff that turns `a` into `b`.
pub uninterp spec fn diff_of(a: Seq<char>, b: Seq<char>) -> Seq<(DiffKind, Seq<char>)>;

/// Relies on `difference::Changeset::new` with the empty separator: the
/// character-level diff of `a` into `b`, as its list of differences.
#[verifier::external_body]
fn char_diff(a: &str, b: &str) -> (r: Vec<DiffPart>)
    ensures
        part_views(r@) == diff_of(a@, b@),
{
    difference::Changeset::new(a, b, "").diffs.into_iter().map(|d| match d {
        difference::Difference::Same(s) => DiffPart::Same(s),
        difference::Difference::Add(s) => DiffPart::Add(s),
        difference::Difference::Rem(s) => DiffPart::Rem(s),
    }).collect()
}

pub const BOLD_OPEN: &'static str = "<span style='font-weight:bold;'>";

pub const LIGHT_OPEN: &'static str = "<span style='font-weight:lighter;'>";

pub const SPAN_CLOSE: &'static str = "</span>";

pub open spec fn bold(s: Seq<char>) -> Seq<char> {
    BOLD_OPEN@ + s + SPAN_CLOSE@
}

pub open spec fn light(s: Seq<char>) -> Seq<char> {
    LIGHT_OPEN@ + s + SPAN_CLOSE@
}

/// The number of removals among the first `n` diff pieces.
pub open spec fn rems_upto(parts: Seq<(DiffKind, Seq<char>)>, n: int) -> nat
    decreases n,
{
    if n <= 0 {
        0
    } else {
        rems_upto(parts, n - 1) + (if parts[n - 1].0 == DiffKind::Rem {
            1nat
        } else {
            0nat
        })
    }
}

/// How far the common and added pieces among the first `n` reach into the
/// document word, capped at its length `d`.
pub open spec fn kept_upto(parts: Seq<(DiffKind, Seq<char>)>, d: nat, n: int) -> nat
    decreases n,
{
    if n <= 0 {
        0
    } else {
        let p = kept_upto(parts, d, n - 1);
        if parts[n - 1].0 == DiffKind::Rem {
            p
        } else if p + parts[n - 1].1.len() >= d {
            d
        } else {
            p + parts[n - 1].1.len()
        }
    }
}

/// The characters of `doc` from `p` on, at most `len` of them.
pub open spec fn doc_piece(doc: Seq<char>, p: nat, len: nat) -> Seq<char> {
    if p + len >= doc.len() {
        doc.subrange(p as int, doc.len() as int)
    } else {
        doc.subrange(p as int, (p + len) as int)
    }
}

/// The rendering of the first `n` diff pieces, in the document word's own
/// characters and casing: a common piece in bold and an added piece light,
/// each as the next characters of `doc`; for the `j`-th removal the `j`-th
/// character of `doc`, in bold, while there is one.
pub open spec fn render_upto(parts: Seq<(DiffKind, Seq<char>)>, doc: Seq<char>, n: int) -> Seq<char>
    decreases n,
{
    if n <= 0 {
        seq![]
    } else {
        let r = render_upto(parts, doc, n - 1);
        let (kind, s) = parts[n - 1];
        let p = kept_upto(parts, doc.len(), n - 1);
        match kind {
            DiffKind::Same => r + bold(doc_piece(doc, p, s.len())),
            DiffKind::Add => r + light(doc_piece(doc, p, s.len())),
            DiffKind::Rem => {
                let j = rems_upto(parts, n - 1);
                if j < doc.len() {
                    r + bold(seq![doc[j as int]])
                } else {
                    r
                }
            },
        }
    }
}

/// The document word `dw` highlighted against the query word `qw`.
pub open spec fn highlight_spec(qw: Seq<char>, dw: Seq<char>) -> Seq<char> {
    let parts = diff_of(lower_of(qw), lower_of(dw));
    render_upto(parts, dw, parts.len() as int)
}

/// The document words `ws` after highlighting, for each of the first `j`
/// positions of the alignment `c` that has a query word of the same index,
/// the word at that position against that query word.
pub open spec fn apply_upto(ws: Seq<Seq<char>>, c: Seq<usize>, q: Seq<Seq<char>>, j: int) -> Seq<Seq<char>>
    decreases j,
{
    if j <= 0 {
        ws
    } else {
        let prev = apply_upto(ws, c, q, j - 1);
        let x = c[j - 1];
        if j - 1 < q.len() && x < prev.len() {
            prev.update(x as int, highlight_spec(q[j - 1], prev[x as int]))
        } else {
            prev
        }
    }
}

/// The highlighted text of a document whose lowercased words are `rt`: its
/// words, highlighted along the best alignment and joined by single spaces;
/// the text itself when there is no alignment. The alignment is ascending,
/// so its `i`-th smallest position is highlighted against query word `i`.
pub open spec fn highlighted_of(q: Seq<Seq<char>>, rt: Seq<Seq<char>>, text: Seq<char>) -> Seq<char> {
    let es = align_entries(q, rt);
    let cs = sorted_combos(es);
    if es.len() == 0 {
        text
    } else {
        match best_upto(cs, cs.len() as int).1 {
            Some(b) => joined(apply_upto(words_of(text), cs[b], q, cs[b].len() as int)),
            None => text,
        }
    }
}

/// The highlighted document text.
pub open spec fn highlighted_spec(q: Seq<Seq<char>>, text: Seq<char>) -> Seq<char> {
    highlighted_of(q, record_tokens(text), text)
}

/// Renders the diff `parts` of a query word into the document word
/// `doc_word`.
pub fn render_diff(parts: &Vec<DiffPart>, doc_word: &str) -> (r: String)
    ensures
        r@ == render_upto(part_views(parts@), doc_word@, parts@.len() as int),
{
    let ghost pv = part_views(parts@);
    let doc = chars_of(doc_word);
    let dn = doc.len();
    let mut out: Vec<char> = Vec::new();
    let mut next: usize = 0;
    let mut pos: usize = 0;
    let mut i: usize = 0;
    while i < parts.len()
        invariant
            i <= parts.len(),
            pv == part_views(parts@),
            doc@ == doc_word@,
            dn == doc@.len(),
            out@ == render_upto(pv, doc@, i as int),
            next == rems_upto(pv, i as int),
            pos == kept_upto(pv, dn as nat, i as int),
            pos <= dn,
            next <= i,
        decreases parts.len() - i,
    {
        assert(pv[i as int] == parts@[i as int]@);
        match &parts[i] {
            DiffPart::Same(s) => {
                let n = s.as_str().unicode_len();
                let end = if n >= dn - pos { dn } else { pos + n };
                push_chars(&mut out, BOLD_OPEN);
                push_range(&mut out, &doc, pos, end);
                push_chars(&mut out, SPAN_CLOSE);
                pos = end;
            },
            DiffPart::Add(s) => {
                let n = s.as_str().unicode_len();
                let end = if n >= dn - pos { dn } else { pos + n };
                push_chars(&mut out, LIGHT_OPEN);
                push_range(&mut out, &doc, pos, end);
                push_chars(&mut out, SPAN_CLOSE);
                pos = end;
            },
            DiffPart::Rem(_) => {
                if next < dn {
                    push_chars(&mut out, BOLD_OPEN);
                    out.push(doc[next]);
                    push_chars(&mut out, SPAN_CLOSE);
                }
                next += 1;
            },
        }
        i += 1;
    }
    string_from_chars(out.as_slice())
}

fn push_range(out: &mut Vec<char>, cs: &Vec<char>, from: usize, to: usize)
    requires
        from <= to <= cs@.len(),
    ensures
        final(out)@ == old(out)@ + cs@.subrange(from as int, to as int),
{
    let mut k: usize = from;
    while k < to
        invariant
            from <= k <= to,
            to <= cs@.len(),
            out@ == old(out)@ + cs@.subrange(from as int, k as int),
        decreases to - k,
    {
        out.push(cs[k]);
        assert(cs@.subrange(from as int, k + 1) == cs@.subrange(from as int, k as int).push(cs@[k as int]));
        k += 1;
    }
}

/// Highlights the document word `doc_word` against the query word
/// `query_word`; the diff is taken on both words lowercased.
pub fn highlight_word(query_word: &str, doc_word: &str) -> (r: String)
    ensures
        r@ == highlight_spec(query_word@, doc_word@),
{
    let a = lowercase(query_word);
    let b = lowercase(doc_word);
    let parts = char_diff(a.as_str(), b.as_str());
    render_diff(&parts, doc_word)
}

fn copy_words(ws: &Vec<String>) -> (r: Vec<String>)
    ensures
        views(r@) == views(ws@),
{
    let mut r: Vec<String> = Vec::new();
    let mut i: usize = 0;
    while i < ws.len()
        invariant
            i <= ws.len(),
            views(r@) == views(ws@).take(i as int),
        decreases ws.len() - i,
    {
        let ghost before = r@;
        r.push(ws[i].clone());
        assert(views(r@) == views(before).push(ws@[i as int]@));
        assert(views(ws@).take(i + 1) == views(ws@).take(i as int).push(ws@[i as int]@));
        i += 1;
    }
    assert(views(ws@).take(ws.len() as int) == views(ws@));
    r
}

/// The document words `words`, highlighted along the alignment `position`
/// and joined by single spaces: the word at `position[i]` is highlighted
/// against `query[i]` for each `i` below both lengths; the others are kept.
pub fn highlight_changes(query: &Vec<String>, words: &Vec<String>, position: &Vec<usize>) -> (r: String)
    ensures
        r@ == joined(apply_upto(views(words@), position@, views(query@), position@.len() as int)),
{
    let mut ws = copy_words(words);
    let mut j: usize = 0;
    while j < position.len()
        invariant
            j <= position.len(),
            views(ws@) == apply_upto(views(words@), position@, views(query@), j as int),
        decreases position.len() - j,
    {
        let x = position[j];
        if j < query.len() && x < ws.len() {
            let h = highlight_word(query[j].as_str(), ws[x].as_str());
            let ghost before = ws@;
            ws.set(x, h);
            assert(views(ws@) =~= views(before).update(x as int, h@));
        }
        j += 1;
    }
    join_words(&ws)
}


proof fn lemma_insert_at(s: Seq<usize>, x: usize, k: int)
    requires
        0 <= k <= s.len(),
        forall|i: int| k <= i < s.len() ==> s[i] > x,
        k == 0 || s[k - 1] <= x,
    ensures
        insert_sorted(s, x) == s.take(k) + seq![x] + s.skip(k),
    decreases s.len(),
{
    if k == s.len() {
        assert(s.take(k) == s);
        assert(s.skip(k) =~= seq![]);
        assert(s.take(k) + seq![x] + s.skip(k) =~= s.push(x));
    } else {
        let p = s.drop_last();
        lemma_insert_at(p, x, k);
        assert(p.take(k) + seq![x] + p.skip(k) + seq![s.last()] =~= s.take(k) + seq![x] + s.skip(k));
        assert((p.take(k) + seq![x] + p.skip(k)).push(s.last()) =~= p.take(k) + seq![x] + p.skip(k) + seq![s.last()]);
    }
}

proof fn lemma_insert_sorted(s: Seq<usize>, x: usize)
    requires
        ascending(s),
    ensures
        ascending(insert_sorted(s, x)),
        insert_sorted(s, x).to_multiset() == s.to_multiset().insert(x),
        insert_sorted(s, x).len() == s.len() + 1,
    decreases s.len(),
{
    broadcast use vstd::seq_lib::group_to_multiset_ensures;
    if s.len() == 0 || s.last() <= x {
        let r = s.push(x);
        assert forall|i: int, j: int| 0 <= i < j < r.len() implies r[i] <= r[j] by {
            if j == s.len() && s.len() > 0 {
                assert(s[i] <= s[s.len() - 1]) by {
                    if i < s.len() - 1 {
                    }
                }
            }
        }
    } else {
        let p = s.drop_last();
        assert(ascending(p));
        lemma_insert_sorted(p, x);
        let q = insert_sorted(p, x);
        let r = q.push(s.last());
        assert(s == p.push(s.last()));
        assert forall|i: int| 0 <= i < q.len() implies q[i] <= s.last() by {
            assert(q.to_multiset().count(q[i]) > 0);
            if q[i] != x {
                assert(p.to_multiset().count(q[i]) > 0);
                let k = choose|k: int| 0 <= k < p.len() && p[k] == q[i];
                assert(s[k] <= s[s.len() - 1]);
            }
        }
        assert forall|i: int, j: int| 0 <= i < j < r.len() implies r[i] <= r[j] by {
            if j < q.len() {
                assert(r[i] == q[i] && r[j] == q[j]);
            } else {
                assert(r[i] == q[i]);
            }
        }
        assert(r.to_multiset() == q.to_multiset().insert(s.last()));
        assert(s.to_multiset() == p.to_multiset().insert(s.last()));
        assert(r.to_multiset() =~= s.to_multiset().insert(x));
    }
}

/// `sort_seq` gives an ascending permutation.
pub proof fn lemma_sort_seq(c: Seq<usize>)
    ensures
        ascending(sort_seq(c)),
        sort_seq(c).to_multiset() == c.to_multiset(),
        sort_seq(c).len() == c.len(),
    decreases c.len(),
{
    broadcast use vstd::seq_lib::group_to_multiset_ensures;
    if c.len() > 0 {
        lemma_sort_seq(c.drop_last());
        lemma_insert_sorted(sort_seq(c.drop_last()), c.last());
        assert(c == c.drop_last().push(c.last()));
    }
}

fn insert_position(v: &Vec<usize>, x: usize) -> (r: Vec<usize>)
    requires
        ascending(v@),
    ensures
        r@ == insert_sorted(v@, x),
{
    let mut k: usize = v.len();
    while k > 0 && v[k - 1] > x
        invariant
            k <= v.len(),
            forall|i: int| k <= i < v.len() ==> v@[i] > x,
        decreases k,
    {
        k -= 1;
    }
    proof {
        lemma_insert_at(v@, x, k as int);
    }
    let mut r: Vec<usize> = Vec::new();
    let mut i: usize = 0;
    while i < k
        invariant
            i <= k <= v.len(),
            r@ == v@.take(i as int),
        decreases k - i,
    {
        r.push(v[i]);
        assert(v@.take(i + 1) == v@.take(i as int).push(v@[i as int]));
        i += 1;
    }
    r.push(x);
    let mut i: usize = k;
    while i < v.len()
        invariant
            k <= i <= v.len(),
            r@ == v@.take(k as int) + seq![x] + v@.subrange(k as int, i as int),
        decreases v.len() - i,
    {
        r.push(v[i]);
        assert(v@.subrange(k as int, i + 1) == v@.subrange(k as int, i as int).push(v@[i as int]));
        i += 1;
    }
    assert(v@.subrange(k as int, v.len() as int) == v@.skip(k as int));
    r
}

/// The positions `c`, sorted ascending.
pub fn sort_positions(c: &Vec<usize>) -> (r: Vec<usize>)
    ensures
        r@ == sort_seq(c@),
        ascending(r@),
        r@.to_multiset() == c@.to_multiset(),
{
    let mut r: Vec<usize> = Vec::new();
    let mut i: usize = 0;
    while i < c.len()
        invariant
            i <= c.len(),
            r@ == sort_seq(c@.take(i as int)),
        decreases c.len() - i,
    {
        proof {
            lemma_sort_seq(c@.take(i as int));
        }
        assert(c@.take(i + 1).drop_last() == c@.take(i as int));
        r = insert_position(&r, c[i]);
        i += 1;
    }
    assert(c@.take(c.len() as int) == c@);
    proof {
        lemma_sort_seq(c@);
    }
    r
}

/// Every alignment of the entries, each sorted ascending, in enumeration
/// order.
fn all_alignments(es: &Vec<(Vec<usize>, usize)>) -> (r: Vec<Vec<usize>>)
    requires
        entries_ok(entries_view(es@)),
    ensures
        vviews(r@) == sorted_combos(entries_view(es@)),
{
    let ghost ev = entries_view(es@);
    let mut cs: Vec<Vec<usize>> = Vec::new();
    let empty: Vec<usize> = Vec::new();
    generate_combinations(es, &empty, 0, &mut cs);
    proof {
        let all = combos_upto(ev, 0, n_windows(ev, 0));
        assert(all.map_values(|c: Seq<usize>| empty@ + c) =~= all) by {
            assert forall|k: int| 0 <= k < all.len() implies all.map_values(|c: Seq<usize>| empty@ + c)[k] == all[k] by {
                assert(empty@ + all[k] =~= all[k]);
            }
        }
        assert(vviews(cs@) =~= combos(ev));
    }
    let mut out: Vec<Vec<usize>> = Vec::new();
    let mut i: usize = 0;
    while i < cs.len()
        invariant
            i <= cs.len(),
            vviews(cs@) == combos(ev),
            vviews(out@) == combos(ev).take(i as int).map_values(|c: Seq<usize>| sort_seq(c)),
        decreases cs.len() - i,
    {
        let ghost before = out@;
        let sorted = sort_positions(&cs[i]);
        let ghost sv = sorted@;
        out.push(sorted);
        proof {
            assert(vviews(cs@)[i as int] == cs@[i as int]@);
            assert(sv == sort_seq(combos(ev)[i as int]));
            assert(vviews(out@) =~= vviews(before).push(sv));
            assert(combos(ev).take(i + 1).map_values(|c: Seq<usize>| sort_seq(c)) =~= combos(ev).take(i as int).map_values(|c: Seq<usize>| sort_seq(c)).push(sort_seq(combos(ev)[i as int])));
            assert(combos(ev).take(i + 1) == combos(ev).take(i as int).push(combos(ev)[i as int]));
            assert(vviews(out@) =~= combos(ev).take(i + 1).map_values(|c: Seq<usize>| sort_seq(c)));
        }
        i += 1;
    }
    assert(combos(ev).take(cs.len() as int) == combos(ev));
    out
}

/// A candidate document scored against the query: its similarity (the
/// least proximity distance) and its highlighted text.
pub struct Record {
    pub record: String,
    pub query: Vec<String>,
    pub record_pos: Vec<(Vec<usize>, usize)>,
    pub exact_matches: usize,
    pub operations: usize,
    pub similarity: u64,
    pub updated_record: String,
}

impl Record {
    /// The alignment list of the query against the document.
    pub open spec fn alignment(&self) -> Seq<(Seq<usize>, nat)> {
        entries_view(self.record_pos@)
    }

    pub open spec fn query_tokens(&self) -> Seq<Seq<char>> {
        views(self.query@)
    }

    pub open spec fn wf(&self) -> bool {
        entries_ok(self.alignment())
    }

    /// Scores the document `record`, whose lowercased text is `lowered`,
    /// against the normalized query tokens `query`.
    pub fn from_lowered(
        query: &Vec<String>,
        record: &str,
        lowered: &str,
        exact_matches: usize,
        operations: usize,
    ) -> (r: Record)
        ensures
            r.wf(),
            r.alignment() == align_entries(views(query@), words_of(lowered@)),
            r.query_tokens() == views(query@),
            r.record@ == record@,
            r.exact_matches == exact_matches,
            r.operations == operations,
            r.similarity == similarity_of(views(query@), words_of(lowered@)),
            r.updated_record@ == highlighted_of(views(query@), words_of(lowered@), record@),
    {
        let lc = chars_of(lowered);
        let rt = split_words(&lc);
        let entries = alignment_entries(query, &rt);
        let qn = query.len();
        let rn = rt.len();
        proof {
            lemma_align_entries_ok(views(query@), views(rt@));
        }
        let mut similarity: u64 = u64::MAX;
        let mut updated = String::from_str(record);
        if entries.len() > 0 {
            let cs = all_alignments(&entries);
            let (mn, best) = best_alignment(&cs);
            similarity = mn;
            match best {
                Some(b) => {
                    let wc = chars_of(record);
                    let words = split_words(&wc);
                    assert(vviews(cs@)[b as int] == cs@[b as int]@);
                    updated = highlight_changes(query, &words, &cs[b]);
                },
                None => {},
            }
        }
        Record {
            record: String::from_str(record),
            query: copy_words(query),
            record_pos: entries,
            exact_matches,
            operations,
            similarity,
            updated_record: updated,
        }
    }

    /// Scores the document `record` against the normalized query tokens
    /// `query`; query words are looked for among its lowercased words.
    pub fn new(query: &Vec<String>, record: &str, exact_matches: usize, operations: usize) -> (r: Record)
        ensures
            r.wf(),
            r.alignment() == align_entries(views(query@), record_tokens(record@)),
            r.query_tokens() == views(query@),
            r.record@ == record@,
            r.exact_matches == exact_matches,
            r.operations == operations,
            r.similarity == similarity_spec(views(query@), record@),
            r.updated_record@ == highlighted_spec(views(query@), record@),
    {
        let lower = lowercase(record);
        Record::from_lowered(query, record, lower.as_str(), exact_matches, operations)
    }

    /// Every alignment of the query words with the document's words, each
    /// sorted ascending: one window of positions per aligned word.
    pub fn generate_all_combinations(&self) -> (r: Vec<Vec<usize>>)
        requires
            self.wf(),
        ensures
            vviews(r@) == sorted_combos(self.alignment()),
            forall|i: int| 0 <= i < r@.len() ==> ascending(#[trigger] r@[i]@) && r@[i]@.to_multiset()
                == combos(self.alignment())[i].to_multiset(),
    {
        let r = all_alignments(&self.record_pos);
        proof {
            assert forall|i: int| 0 <= i < r@.len() implies ascending(#[trigger] r@[i]@) && r@[i]@.to_multiset()
                == combos(self.alignment())[i].to_multiset() by {
                assert(vviews(r@)[i] == r@[i]@);
                assert(vviews(r@).len() == combos(self.alignment()).len());
                assert(sorted_combos(self.alignment())[i] == sort_seq(combos(self.alignment())[i]));
                lemma_sort_seq(combos(self.alignment())[i]);
            }
        }
        r
    }

    /// The similarity of the document: lower is closer.
    pub fn calculate_distance(&self) -> (r: u64)
        ensures
            r == self.similarity,
    {
        self.similarity
    }
}

} // verus!
