//! Text normalization: transliteration, lowercasing, punctuation removal and
//! splitting into whitespace-separated tokens.

use vstd::prelude::*;

verus! {

/// Unicode `White_Space` characters, the set that `char::is_whitespace` tests.
pub open spec fn is_ws(c: char) -> bool {
    let u = c as u32;
    ||| 0x09 <= u <= 0x0D
    ||| u == 0x20
    ||| u == 0x85
    ||| u == 0xA0
    ||| u == 0x1680
    ||| 0x2000 <= u <= 0x200A
    ||| u == 0x2028
    ||| u == 0x2029
    ||| u == 0x202F
    ||| u == 0x205F
    ||| u == 0x3000
}

pub fn is_whitespace_char(c: char) -> (r: bool)
    ensures
        r == is_ws(c),
{
    let u = c as u32;
    (0x09 <= u && u <= 0x0D) || u == 0x20 || u == 0x85 || u == 0xA0 || u == 0x1680 || (0x2000
        <= u && u <= 0x200A) || u == 0x2028 || u == 0x2029 || u == 0x202F || u == 0x205F || u
        == 0x3000
}

/// The whitespace-separated words of `s`, left to right.
pub open spec fn words_of(s: Seq<char>) -> Seq<Seq<char>>
    decreases s.len(),
{
    if s.len() == 0 {
        seq![]
    } else {
        let p = s.drop_last();
        let c = s.last();
        if is_ws(c) {
            words_of(p)
        } else if p.len() > 0 && !is_ws(p.last()) {
            let w = words_of(p);
            w.update(w.len() - 1, w.last().push(c))
        } else {
            words_of(p).push(seq![c])
        }
    }
}

pub open spec fn views(v: Seq<String>) -> Seq<Seq<char>> {
    v.map_values(|s: String| s@)
}

proof fn lemma_words_nonempty(s: Seq<char>)
    requires
        s.len() > 0,
        !is_ws(s.last()),
    ensures
        words_of(s).len() > 0,
        words_of(s).last().len() > 0,
    decreases s.len(),
{
    let p = s.drop_last();
    if p.len() > 0 && !is_ws(p.last()) {
        lemma_words_nonempty(p);
    }
}

/// Relies on `String: FromIterator<char>`: the string holds the characters in order.
#[verifier::external_body]
pub(crate) fn string_from_chars(cs: &[char]) -> (r: String)
    ensures
        r@ == cs@,
{
    cs.iter().collect()
}

pub fn chars_of(s: &str) -> (r: Vec<char>)
    ensures
        r@ == s@,
{
    let mut r: Vec<char> = Vec::new();
    for c in it: s.chars()
        invariant
            r@ == it.seq().take(it.index() as int),
    {
        r.push(c);
    }
    r
}

/// Splits `cs` into its whitespace-separated words.
pub fn split_words(cs: &Vec<char>) -> (r: Vec<String>)
    ensures
        views(r@) == words_of(cs@),
{
    let mut out: Vec<String> = Vec::new();
    let mut cur: Vec<char> = Vec::new();
    let mut i: usize = 0;
    while i < cs.len()
        invariant
            i <= cs.len(),
            (if cur.len() > 0 { views(out@).push(cur@) } else { views(out@) }) == words_of(
                cs@.take(i as int),
            ),
            cur.len() > 0 <==> (i > 0 && !is_ws(cs@[i - 1])),
        decreases cs.len() - i,
    {
        let c = cs[i];
        let ghost p = cs@.take(i as int);
        let ghost q = cs@.take(i + 1);
        assert(q.drop_last() == p);
        assert(q.last() == c);
        if is_whitespace_char(c) {
            if cur.len() > 0 {
                let w = string_from_chars(cur.as_slice());
                let ghost before = out@;
                out.push(w);
                assert(views(out@) == views(before).push(w@));
                cur = Vec::new();
            }
        } else {
            let ghost old_cur = cur@;
            let had = cur.len() > 0;
            cur.push(c);
            if had {
                assert(words_of(p) == views(out@).push(old_cur));
                assert(words_of(q) =~= views(out@).push(cur@));
            } else {
                assert(words_of(p) == views(out@));
                assert(cur@ =~= seq![c]);
            }
            assert(words_of(q) == (if cur.len() > 0 { views(out@).push(cur@) } else { views(out@) }));
        }
        i += 1;
    }
    if cur.len() > 0 {
        let w = string_from_chars(cur.as_slice());
        let ghost before = out@;
        out.push(w);
        assert(views(out@) == views(before).push(w@));
    }
    assert(cs@.take(cs.len() as int) == cs@);
    out
}

} // verus!

verus! {

pub open spec fn is_ascii_char(c: char) -> bool {
    (c as u32) < 128
}

pub open spec fn all_ascii(s: Seq<char>) -> bool {
    forall|i: int| 0 <= i < s.len() ==> is_ascii_char(#[trigger] s[i])
}

/// ASCII lowercasing of one character; every other character is kept.
pub open spec fn ascii_lower(c: char) -> char {
    if 65 <= (c as u32) <= 90 {
        (((c as u32) + 32) as u8) as char
    } else {
        c
    }
}

/// The punctuation that normalization deletes.
pub open spec fn is_stripped(c: char) -> bool {
    c == '\'' || c == ':' || c == '.' || c == ',' || c == '*' || c == '+' || c == '?' || c == '$'
        || c == '{' || c == '}' || c == '(' || c == ')' || c == '|'
}

/// `s` lowercased, with the stripped punctuation deleted.
pub open spec fn cleaned(s: Seq<char>) -> Seq<char>
    decreases s.len(),
{
    if s.len() == 0 {
        seq![]
    } else {
        let r = cleaned(s.drop_last());
        let c = ascii_lower(s.last());
        if is_stripped(c) {
            r
        } else {
            r.push(c)
        }
    }
}

pub uninterp spec fn unidecode_of(s: Seq<char>) -> Seq<char>;

/// The ASCII transliteration of `s`; ASCII text stays as it is.
pub open spec fn transliterated(s: Seq<char>) -> Seq<char> {
    if all_ascii(s) {
        s
    } else {
        unidecode_of(s)
    }
}

/// The tokens of `text` after transliteration, lowercasing and punctuation removal.
pub open spec fn normalize_spec(text: Seq<char>) -> Seq<Seq<char>> {
    words_of(cleaned(transliterated(text)))
}

/// Relies on `unidecode::unidecode`: its result is ASCII, and every ASCII
/// character is mapped to itself.
#[verifier::external_body]
fn transliterate(s: &str) -> (r: String)
    ensures
        !all_ascii(s@) ==> r@ == unidecode_of(s@),
        all_ascii(s@) ==> r@ == s@,
        all_ascii(r@),
{
    unidecode::unidecode(s)
}

fn lower_ascii_char(c: char) -> (r: char)
    ensures
        r == ascii_lower(c),
{
    let u = c as u32;
    if 65 <= u && u <= 90 {
        ((u + 32) as u8) as char
    } else {
        c
    }
}

fn is_stripped_char(c: char) -> (r: bool)
    ensures
        r == is_stripped(c),
{
    c == '\'' || c == ':' || c == '.' || c == ',' || c == '*' || c == '+' || c == '?' || c == '$'
        || c == '{' || c == '}' || c == '(' || c == ')' || c == '|'
}

fn clean_chars(cs: &Vec<char>) -> (r: Vec<char>)
    ensures
        r@ == cleaned(cs@),
{
    let mut r: Vec<char> = Vec::new();
    let mut i: usize = 0;
    while i < cs.len()
        invariant
            i <= cs.len(),
            r@ == cleaned(cs@.take(i as int)),
        decreases cs.len() - i,
    {
        assert(cs@.take(i + 1).drop_last() == cs@.take(i as int));
        let c = lower_ascii_char(cs[i]);
        if !is_stripped_char(c) {
            r.push(c);
        }
        i += 1;
    }
    assert(cs@.take(cs.len() as int) == cs@);
    r
}

/// Normalizes `text` into its tokens; a token's position is its index.
pub fn normalize(text: &str) -> (r: Vec<String>)
    ensures
        views(r@) == normalize_spec(text@),
        all_plain_words(views(r@)),
{
    let t = transliterate(text);
    assert(t@ == transliterated(text@));
    proof {
        lemma_cleaned_settled(t@);
        lemma_words_plain(cleaned(t@));
    }
    let cs = chars_of(t.as_str());
    let cleaned_cs = clean_chars(&cs);
    split_words(&cleaned_cs)
}

} // verus!

verus! {

/// The words of `ws` joined by single spaces.
pub open spec fn joined(ws: Seq<Seq<char>>) -> Seq<char>
    decreases ws.len(),
{
    if ws.len() == 0 {
        seq![]
    } else if ws.len() == 1 {
        ws[0]
    } else {
        joined(ws.drop_last()) + seq![' '] + ws.last()
    }
}

/// A character that normalization keeps as it is.
pub open spec fn is_settled(c: char) -> bool {
    is_ascii_char(c) && ascii_lower(c) == c && !is_stripped(c)
}

pub open spec fn all_settled(s: Seq<char>) -> bool {
    forall|i: int| 0 <= i < s.len() ==> is_settled(#[trigger] s[i])
}

/// A nonempty word of settled, non-whitespace characters.
pub open spec fn is_plain_word(w: Seq<char>) -> bool {
    w.len() > 0 && all_settled(w) && forall|i: int| 0 <= i < w.len() ==> !is_ws(#[trigger] w[i])
}

pub open spec fn all_plain_words(ws: Seq<Seq<char>>) -> bool {
    forall|i: int| 0 <= i < ws.len() ==> is_plain_word(#[trigger] ws[i])
}

/// The normalized tokens of `text`, joined by single spaces.
///
/// Normalizing that string again gives the same tokens: normalization is
/// idempotent.
pub fn normalize_to_string(text: &str) -> (r: String)
    ensures
        r@ == joined(normalize_spec(text@)),
        normalize_spec(r@) == normalize_spec(text@),
{
    let words = normalize(text);
    let r = join_words(&words);
    proof {
        lemma_joined_settled(views(words@));
        assert(all_ascii(r@)) by {
            assert forall|i: int| 0 <= i < r@.len() implies is_ascii_char(#[trigger] r@[i]) by {
                assert(is_settled(r@[i]));
            }
        }
    }
    proof {
        lemma_cleaned_settled_id(r@);
        lemma_words_of_joined(views(words@));
    }
    r
}

proof fn lemma_cleaned_settled(s: Seq<char>)
    requires
        all_ascii(s),
    ensures
        all_settled(cleaned(s)),
    decreases s.len(),
{
    if s.len() > 0 {
        let p = s.drop_last();
        assert(all_ascii(p)) by {
            assert forall|i: int| 0 <= i < p.len() implies is_ascii_char(p[i]) by {
                assert(p[i] == s[i]);
            }
        }
        lemma_cleaned_settled(p);
        assert(is_ascii_char(s[s.len() - 1]));
    }
}

proof fn lemma_words_plain(s: Seq<char>)
    requires
        all_settled(s),
    ensures
        all_plain_words(words_of(s)),
    decreases s.len(),
{
    if s.len() > 0 {
        let p = s.drop_last();
        let c = s.last();
        assert(all_settled(p)) by {
            assert forall|i: int| 0 <= i < p.len() implies is_settled(p[i]) by {
                assert(p[i] == s[i]);
            }
        }
        assert(is_settled(s[s.len() - 1]));
        lemma_words_plain(p);
        let w = words_of(p);
        if is_ws(c) {
        } else if p.len() > 0 && !is_ws(p.last()) {
            lemma_words_nonempty(p);
            let nw = w.update(w.len() - 1, w.last().push(c));
            assert(is_plain_word(w[w.len() - 1]));
            assert forall|i: int| 0 <= i < nw.len() implies is_plain_word(#[trigger] nw[i]) by {
                if i == w.len() - 1 {
                    let x = w.last().push(c);
                    assert forall|j: int| 0 <= j < x.len() implies is_settled(#[trigger] x[j])
                        && !is_ws(x[j]) by {
                        if j < x.len() - 1 {
                            assert(x[j] == w.last()[j]);
                        }
                    }
                } else {
                    assert(nw[i] == w[i]);
                }
            }
        } else {
            let nw = w.push(seq![c]);
            assert forall|i: int| 0 <= i < nw.len() implies is_plain_word(#[trigger] nw[i]) by {
                if i < w.len() {
                    assert(nw[i] == w[i]);
                }
            }
        }
    }
}

proof fn lemma_joined_settled(ws: Seq<Seq<char>>)
    requires
        all_plain_words(ws),
    ensures
        all_settled(joined(ws)),
    decreases ws.len(),
{
    if ws.len() == 1 {
        assert(is_plain_word(ws[0]));
    } else if ws.len() > 1 {
        let p = ws.drop_last();
        assert(all_plain_words(p)) by {
            assert forall|i: int| 0 <= i < p.len() implies is_plain_word(#[trigger] p[i]) by {
                assert(p[i] == ws[i]);
            }
        }
        lemma_joined_settled(p);
        assert(is_plain_word(ws[ws.len() - 1]));
        let a = joined(p);
        let b = ws.last();
        let j = a + seq![' '] + b;
        assert forall|i: int| 0 <= i < j.len() implies is_settled(#[trigger] j[i]) by {
            if i < a.len() {
                assert(j[i] == a[i]);
            } else if i == a.len() {
                assert(j[i] == ' ');
            } else {
                assert(j[i] == b[i - a.len() - 1]);
            }
        }
    }
}

proof fn lemma_cleaned_settled_id(s: Seq<char>)
    requires
        all_settled(s),
    ensures
        cleaned(s) == s,
    decreases s.len(),
{
    if s.len() > 0 {
        let p = s.drop_last();
        assert(all_settled(p)) by {
            assert forall|i: int| 0 <= i < p.len() implies is_settled(p[i]) by {
                assert(p[i] == s[i]);
            }
        }
        lemma_cleaned_settled_id(p);
        assert(is_settled(s[s.len() - 1]));
        assert(p.push(s.last()) == s);
    }
}

proof fn lemma_words_append_word(p: Seq<char>, t: Seq<char>)
    requires
        is_plain_word(t),
        p.len() == 0 || is_ws(p.last()),
    ensures
        words_of(p + t) == words_of(p).push(t),
    decreases t.len(),
{
    let q = t.drop_last();
    let c = t.last();
    assert((p + t).drop_last() == p + q);
    assert((p + t).last() == c);
    assert(!is_ws(t[t.len() - 1]));
    if q.len() > 0 {
        assert(is_plain_word(q)) by {
            assert forall|i: int| 0 <= i < q.len() implies is_settled(#[trigger] q[i])
                && !is_ws(q[i]) by {
                assert(q[i] == t[i]);
            }
        }
        lemma_words_append_word(p, q);
        assert((p + q).last() == q.last());
        assert(!is_ws(t[q.len() - 1]));
        assert(q.push(c) == t);
        assert(words_of(p + t) =~= words_of(p).push(t));
    } else {
        assert(p + q == p);
        assert(t =~= seq![c]);
    }
}

#[verifier::spinoff_prover]
#[verifier::rlimit(40)]
proof fn lemma_words_of_joined(ws: Seq<Seq<char>>)
    requires
        all_plain_words(ws),
    ensures
        words_of(joined(ws)) == ws,
    decreases ws.len(),
{
    if ws.len() == 0 {
    } else if ws.len() == 1 {
        assert(is_plain_word(ws[0]));
        lemma_words_append_word(seq![], ws[0]);
        assert(seq![] + ws[0] == ws[0]);
        assert(seq![].push(ws[0]) == ws);
    } else {
        let p = ws.drop_last();
        assert(all_plain_words(p)) by {
            assert forall|i: int| 0 <= i < p.len() implies is_plain_word(#[trigger] p[i]) by {
                assert(p[i] == ws[i]);
            }
        }
        lemma_words_of_joined(p);
        let a = joined(p).push(' ');
        assert(a.drop_last() == joined(p));
        assert(words_of(a) == words_of(joined(p)));
        assert(is_plain_word(ws[ws.len() - 1]));
        lemma_words_append_word(a, ws.last());
        assert(joined(p) + seq![' '] + ws.last() == a + ws.last());
        assert(p.push(ws.last()) == ws);
    }
}


/// Appends the characters of `s` to `out`.
pub fn push_chars(out: &mut Vec<char>, s: &str)
    ensures
        final(out)@ == old(out)@ + s@,
{
    let cs = chars_of(s);
    let mut j: usize = 0;
    while j < cs.len()
        invariant
            j <= cs.len(),
            cs@ == s@,
            out@ == old(out)@ + cs@.take(j as int),
        decreases cs.len() - j,
    {
        out.push(cs[j]);
        assert(cs@.take(j + 1) == cs@.take(j as int).push(cs@[j as int]));
        j += 1;
    }
    assert(cs@.take(cs.len() as int) == cs@);
}

/// The strings of `ws` joined by single spaces.
pub fn join_words(ws: &Vec<String>) -> (r: String)
    ensures
        r@ == joined(views(ws@)),
{
    let mut out: Vec<char> = Vec::new();
    let mut i: usize = 0;
    while i < ws.len()
        invariant
            i <= ws.len(),
            out@ == joined(views(ws@).take(i as int)),
        decreases ws.len() - i,
    {
        let ghost before = views(ws@).take(i as int);
        let ghost after = views(ws@).take(i + 1);
        assert(after.drop_last() == before);
        if i > 0 {
            out.push(' ');
        }
        push_chars(&mut out, ws[i].as_str());
        assert(out@ == joined(after));
        i += 1;
    }
    assert(views(ws@).take(ws.len() as int) == views(ws@));
    string_from_chars(out.as_slice())
}

pub uninterp spec fn lower_of(s: Seq<char>) -> Seq<char>;

/// Relies on `str::to_lowercase`: the Unicode lowercase mapping of the text.
#[verifier::external_body]
pub(crate) fn lowercase(s: &str) -> (r: String)
    ensures
        r@ == lower_of(s@),
{
    s.to_lowercase()
}


/// Whether every character of `s` is ASCII.
pub fn is_ascii_text(s: &str) -> (r: bool)
    ensures
        r == all_ascii(s@),
{
    let cs = chars_of(s);
    let mut i: usize = 0;
    while i < cs.len()
        invariant
            i <= cs.len(),
            cs@ == s@,
            forall|j: int| 0 <= j < i ==> is_ascii_char(#[trigger] cs@[j]),
        decreases cs.len() - i,
    {
        if cs[i] as u32 >= 128 {
            return false;
        }
        i += 1;
    }
    true
}

} // verus!
