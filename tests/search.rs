use std::collections::HashMap;

use title_search::aggregate::cache_key_of;
use title_search::cache::{insert_into_cache, retrieve_from_cache, MatchCache};
use title_search::document::{Document, DocumentMap};
use title_search::index::SearchIndex;
use title_search::rank::{search, TOP_N};
use title_search::record::{alignment_distance, highlight_changes, highlight_word, render_diff, sort_positions, DiffPart, Record};
use title_search::text::{normalize, normalize_to_string};
use title_search::trie::{nr_allowed_errors, Trie};
use title_search::word::{NotFound, Word, WordInRecord, WordMap};

fn strings(ws: &[&str]) -> Vec<String> {
    ws.iter().map(|w| w.to_string()).collect()
}

fn build(texts: &[&str]) -> SearchIndex {
    let mut idx = SearchIndex::new();
    for t in texts {
        idx.ingest(t.to_string()).unwrap();
    }
    idx
}

fn dictionary(idx: &SearchIndex) -> Trie {
    Trie::new(idx.words.terms())
}

#[test]
fn normalize_strips_punctuation_and_lowercases() {
    assert_eq!(normalize("Don't Stop: Me.Now  (live)"), strings(&["dont", "stop", "menow", "live"]));
}

#[test]
fn normalize_transliterates() {
    assert_eq!(normalize("Æneid étude"), strings(&["aeneid", "etude"]));
}

#[test]
fn normalize_empty_and_blank() {
    assert!(normalize("").is_empty());
    assert!(normalize("   \t ").is_empty());
    assert!(normalize("?$*+").is_empty());
}

#[test]
fn normalize_is_idempotent() {
    for x in ["The Lord of the Rings: The Fellowship", "  Æneid,  ÉTUDE  ", "a|b {c} (d)", "", "北亰"] {
        let once = normalize_to_string(x);
        assert_eq!(normalize(&once), normalize(x));
        assert_eq!(normalize_to_string(&once), once);
    }
}

#[test]
fn normalize_to_string_joins_with_single_spaces() {
    assert_eq!(normalize_to_string("  Hello,   World!  "), "hello world!");
}

#[test]
fn word_new_is_empty() {
    let w = Word::new(7);
    assert_eq!(w.id, 7);
    assert!(w.in_records.is_empty());
    assert!(w.position.is_empty());
    assert_eq!(w.popularity, 0);
}

#[test]
fn word_map_assigns_fresh_ids() {
    let mut m = WordMap::new();
    assert_eq!(m.get_or_create_word_mut("alpha").id, 0);
    assert_eq!(m.get_or_create_word_mut("beta").id, 1);
    assert_eq!(m.get_or_create_word_mut("alpha").id, 0);
    assert_eq!(m.len(), 2);
    m.get_or_create_word_mut("alpha").update_pos(3, 4);
    let w = m.get_word("alpha").unwrap();
    assert_eq!(w.in_records, vec![WordInRecord { idx: 3, pos: 4 }]);
    assert_eq!(w.position, vec![4]);
    assert_eq!(w.popularity, 1);
}

#[test]
fn word_map_lookup_of_unknown_term_fails() {
    let m = WordMap::new();
    assert!(matches!(m.get_word("nothing"), Err(NotFound::NotFound)));
}

#[test]
fn document_map_assigns_ids_in_order() {
    let mut d = DocumentMap::new();
    let a = d.add_doc("first".to_string());
    let b = d.add_doc("second".to_string());
    assert_eq!(a.id, 0);
    assert_eq!(b.id, 1);
    assert_eq!(d.len(), 2);
    assert_eq!(d.get_document(&vec![1, 0]).unwrap(), strings(&["second", "first"]));
}

#[test]
fn document_map_unknown_id_is_not_found() {
    let mut d = DocumentMap::new();
    d.add_doc("first".to_string());
    assert_eq!(d.get_document(&vec![0, 5]), Err(NotFound::NotFound));
    assert!(d.get_text(9).is_err());
}

#[test]
fn process_adds_one_posting_per_token() {
    let mut m = WordMap::new();
    let doc = Document { id: 4, text: "The cat and the hat".to_string() };
    doc.process(&mut m).unwrap();
    let the = m.get_word("the").unwrap();
    assert_eq!(the.in_records, vec![WordInRecord { idx: 4, pos: 0 }, WordInRecord { idx: 4, pos: 3 }]);
    assert_eq!(the.popularity, 2);
    assert_eq!(m.get_word("hat").unwrap().in_records, vec![WordInRecord { idx: 4, pos: 4 }]);
    assert_eq!(m.len(), 4);
}

#[test]
fn index_postings_name_stored_documents() {
    let idx = build(&["alpha beta", "beta gamma beta"]);
    let beta = idx.words.get_word("beta").unwrap();
    assert_eq!(
        beta.in_records,
        vec![
            WordInRecord { idx: 0, pos: 1 },
            WordInRecord { idx: 1, pos: 0 },
            WordInRecord { idx: 1, pos: 2 },
        ]
    );
    for r in &beta.in_records {
        let text = idx.docs.get_text(r.idx).unwrap();
        assert_eq!(normalize(text)[r.pos as usize], "beta");
    }
}

#[test]
fn trie_sorts_and_deduplicates() {
    let t = Trie::new(strings(&["foo", "bar", "foo", "baz"]));
    let all = t.find_words("bar", 3);
    let words: Vec<&str> = all.iter().map(|(w, _)| w.as_str()).collect();
    assert_eq!(words, vec!["bar", "baz", "foo"]);
}

#[test]
fn find_words_within_one_edit() {
    let t = Trie::new(strings(&["fa", "fo", "fob", "focus", "foo", "food", "foul"]));
    assert_eq!(
        t.find_words("foo", 1),
        vec![("fo".to_string(), 1), ("fob".to_string(), 1), ("foo".to_string(), 0), ("food".to_string(), 1)]
    );
}

#[test]
fn find_words_exact_term_matches_itself() {
    let t = Trie::new(strings(&["kitten", "sitting", "mitten", "kitte"]));
    assert_eq!(t.find_words("kitten", 0), vec![("kitten".to_string(), 0)]);
}

#[test]
fn find_words_reports_edit_distance() {
    let t = Trie::new(strings(&["sitting"]));
    assert_eq!(t.find_words("kitten", 3), vec![("sitting".to_string(), 3)]);
    assert!(t.find_words("kitten", 2).is_empty());
}

#[test]
fn find_words_on_empty_dictionary() {
    let t = Trie::new(Vec::new());
    assert!(t.find_words("anything", 2).is_empty());
}

#[test]
fn allowed_errors_of_last_token() {
    assert_eq!(nr_allowed_errors("", true), 0);
    assert_eq!(nr_allowed_errors("a", true), 1);
    assert_eq!(nr_allowed_errors("ab", true), 1);
    assert_eq!(nr_allowed_errors("abc", true), 2);
    assert_eq!(nr_allowed_errors("abcd", true), 3);
    assert_eq!(nr_allowed_errors("abcdefghij", true), 3);
}

#[test]
fn allowed_errors_of_other_tokens() {
    assert_eq!(nr_allowed_errors("abcd", false), 1);
    assert_eq!(nr_allowed_errors("abcde", false), 2);
    assert_eq!(nr_allowed_errors("a", false), 1);
}

#[test]
fn cache_key_format() {
    assert_eq!(cache_key_of("lord", 2), "lord::2");
}

#[test]
fn cache_round_trip() {
    let mut c = MatchCache::new();
    assert_eq!(retrieve_from_cache(&mut c, "lord::1"), None);
    let v = vec![("lord".to_string(), 0), ("lords".to_string(), 1)];
    insert_into_cache(&mut c, "lord::1", &v);
    assert_eq!(retrieve_from_cache(&mut c, "lord::1"), Some(v));
    assert_eq!(retrieve_from_cache(&mut c, "lord::2"), None);
}

#[test]
fn cache_evicts_least_recently_used() {
    let mut c = MatchCache::new();
    for i in 0..101 {
        insert_into_cache(&mut c, &format!("k{i}"), &vec![(format!("w{i}"), 0)]);
    }
    assert_eq!(retrieve_from_cache(&mut c, "k0"), None);
    assert!(retrieve_from_cache(&mut c, "k100").is_some());
}

#[test]
fn find_matches_requires_every_token() {
    let idx = build(&["alpha gamma", "alpha beta"]);
    let trie = dictionary(&idx);
    let mut cache = MatchCache::new();
    let m = trie.find_matches("alpha beta", &idx.words, &mut cache);
    assert!(m.contains_key(&1));
    assert!(!m.contains_key(&0));
    assert_eq!(m.get(&1), Some(&(2, 0)));
}

#[test]
fn find_matches_counts_typos() {
    let idx = build(&["the lord of the rings"]);
    let trie = dictionary(&idx);
    let mut cache = MatchCache::new();
    let m = trie.find_matches("lorf rings", &idx.words, &mut cache);
    assert_eq!(m.get(&0), Some(&(1, 1)));
}

#[test]
fn find_matches_empty_query() {
    let idx = build(&["alpha"]);
    let trie = dictionary(&idx);
    let mut cache = MatchCache::new();
    assert!(trie.find_matches("", &idx.words, &mut cache).is_empty());
    assert!(trie.find_matches("zzzzzzzz", &idx.words, &mut cache).is_empty());
}

#[test]
fn find_matches_does_not_count_one_occurrence_twice() {
    let idx = build(&["beta", "beta beta"]);
    let trie = dictionary(&idx);
    let mut cache = MatchCache::new();
    let m = trie.find_matches("beta beta", &idx.words, &mut cache);
    assert!(!m.contains_key(&0));
    assert_eq!(m.get(&1), Some(&(2, 0)));
}

#[test]
fn alignment_distance_examples() {
    assert_eq!(alignment_distance(&vec![0, 1, 2, 3]), 0);
    assert_eq!(alignment_distance(&vec![3, 0, 1]), 1);
    assert_eq!(alignment_distance(&vec![]), 0);
    assert_eq!(alignment_distance(&vec![5]), 25);
}

#[test]
fn record_phrase_match_has_distance_zero() {
    let q = normalize("the lord of the");
    let r = Record::new(&q, "the lord of the rings", 4, 0);
    assert_eq!(r.similarity, 0);
    assert_eq!(r.calculate_distance(), 0);
    let s = Record::new(&q, "of the rings the lord", 4, 0);
    assert_eq!(s.similarity, 2);
    assert_eq!(s.generate_all_combinations(), vec![vec![0, 1, 3, 4]]);
}

#[test]
fn record_without_alignment_sorts_last() {
    let q = normalize("alpha");
    let r = Record::new(&q, "Beta Gamma", 0, 0);
    assert_eq!(r.similarity, u64::MAX);
    assert_eq!(r.updated_record, "Beta Gamma");
    assert_eq!(r.generate_all_combinations(), vec![Vec::<usize>::new()]);
}

#[test]
fn record_highlights_the_aligned_word() {
    let q = normalize("lord");
    let r = Record::new(&q, "The Lord", 1, 0);
    assert_eq!(r.similarity, 1);
    assert_eq!(r.updated_record, "The <span style='font-weight:bold;'>Lord</span>");
    assert_eq!(r.generate_all_combinations(), vec![vec![1]]);
}

#[test]
fn record_enumerates_windows_of_repeated_words() {
    let q = normalize("the the");
    let r = Record::new(&q, "the a the b the", 0, 0);
    assert_eq!(r.generate_all_combinations(), vec![vec![0, 2], vec![2, 4]]);
}

#[test]
fn highlight_word_common_and_added() {
    assert_eq!(
        highlight_word("lor", "lord"),
        "<span style='font-weight:bold;'>lor</span><span style='font-weight:lighter;'>d</span>"
    );
}

#[test]
fn highlight_word_removed_takes_document_character() {
    assert_eq!(
        highlight_word("lords", "Lord"),
        "<span style='font-weight:bold;'>Lord</span><span style='font-weight:bold;'>L</span>"
    );
}

#[test]
fn sort_raw_result_exact_matches_first() {
    let mut d = DocumentMap::new();
    d.add_doc("of the rings the lord".to_string());
    d.add_doc("the lord of the".to_string());
    let mut cands = HashMap::new();
    cands.insert(0u32, (2usize, 5usize));
    cands.insert(1u32, (1usize, 0usize));
    let r = d.sort_raw_result("the lord of the", &cands).unwrap();
    assert_eq!(r.len(), 2);
    assert_eq!(r[0].1, "of the rings the lord");
    assert_eq!(r[1].1, "the lord of the");
}

#[test]
fn sort_raw_result_phrase_outranks_scattered() {
    let mut d = DocumentMap::new();
    d.add_doc("of the rings the lord".to_string());
    d.add_doc("the lord of the rings".to_string());
    let mut cands = HashMap::new();
    cands.insert(0u32, (4usize, 0usize));
    cands.insert(1u32, (4usize, 0usize));
    let r = d.sort_raw_result("the lord of the", &cands).unwrap();
    assert_eq!(r[0].1, "the lord of the rings");
    assert_eq!(r[1].1, "of the rings the lord");
}

#[test]
fn sort_raw_result_reports_missing_documents() {
    let mut d = DocumentMap::new();
    d.add_doc("alpha".to_string());
    let mut cands = HashMap::new();
    cands.insert(0u32, (1usize, 0usize));
    cands.insert(7u32, (1usize, 0usize));
    assert_eq!(d.sort_raw_result("alpha", &cands), Err(NotFound::NotFound));
    cands.remove(&7);
    let r = d.sort_raw_result("alpha", &cands).unwrap();
    assert_eq!(r.len(), 1);
    assert_eq!(r[0].1, "alpha");
}

#[test]
fn search_returns_at_most_ten() {
    let texts: Vec<String> = (0..30).map(|i| format!("alpha number {i}")).collect();
    let refs: Vec<&str> = texts.iter().map(|s| s.as_str()).collect();
    let idx = build(&refs);
    let trie = dictionary(&idx);
    let mut cache = MatchCache::new();
    let r = search(&trie, &idx.words, &idx.docs, &mut cache, "alpha").unwrap();
    assert_eq!(r.len(), TOP_N);
    assert_eq!(TOP_N, 10);
}

#[test]
fn search_is_the_same_with_a_warm_cache() {
    let idx = build(&["the lord of the rings", "lord of war", "the ring", "of the rings the lord"]);
    let trie = dictionary(&idx);
    let mut cache = MatchCache::new();
    let cold = idx.search(&trie, &mut cache, "the lorf of");
    let warm = idx.search(&trie, &mut cache, "the lorf of");
    assert_eq!(cold, warm);
    assert!(!cold.is_empty());
    let mut fresh = MatchCache::new();
    assert_eq!(idx.search(&trie, &mut fresh, "the lorf of"), cold);
}

#[test]
fn search_ranks_phrase_first() {
    let idx = build(&["of the rings the lord", "the lord of the rings"]);
    let trie = dictionary(&idx);
    let mut cache = MatchCache::new();
    let r = idx.search(&trie, &mut cache, "the lord of the");
    assert_eq!(r.len(), 2);
    assert_eq!(r[0].1, "the lord of the rings");
}

#[test]
fn search_with_no_match_is_empty() {
    let idx = build(&["alpha"]);
    let trie = dictionary(&idx);
    let mut cache = MatchCache::new();
    assert!(idx.search(&trie, &mut cache, "").is_empty());
    assert_eq!(search(&trie, &idx.words, &idx.docs, &mut cache, "qqqqqqqqqq"), Ok(vec![]));
}

#[test]
fn record_alignments_are_sorted() {
    let q = normalize("the lord of the");
    let r = Record::new(&q, "the the lord of the", 4, 0);
    assert_eq!(r.generate_all_combinations(), vec![vec![0, 1, 2, 3], vec![1, 2, 3, 4]]);
    assert_eq!(r.similarity, 0);
}

#[test]
fn sort_positions_ascending() {
    assert_eq!(sort_positions(&vec![3, 0, 2, 1]), vec![0, 1, 2, 3]);
    assert_eq!(sort_positions(&vec![]), Vec::<usize>::new());
    assert_eq!(sort_positions(&vec![5, 5, 1]), vec![1, 5, 5]);
}

#[test]
fn render_diff_keeps_document_casing() {
    let parts = vec![DiffPart::Same("ab".to_string()), DiffPart::Add("c".to_string()), DiffPart::Rem("x".to_string())];
    assert_eq!(
        render_diff(&parts, "ABC"),
        "<span style='font-weight:bold;'>AB</span><span style='font-weight:lighter;'>C</span><span style='font-weight:bold;'>A</span>"
    );
}

#[test]
fn record_from_lowered_words() {
    let q = normalize("lord");
    let r = Record::from_lowered(&q, "The LORD", "the lord", 1, 0);
    assert_eq!(r.similarity, 1);
    assert_eq!(r.updated_record, "The <span style='font-weight:bold;'>LORD</span>");
    let none = Record::from_lowered(&q, "The LORD", "the lard", 1, 0);
    assert_eq!(none.similarity, u64::MAX);
    assert_eq!(none.updated_record, "The LORD");
}

#[test]
fn cache_get_promotes_entry() {
    let mut c = MatchCache::new();
    for i in 0..100 {
        insert_into_cache(&mut c, &format!("k{i}"), &vec![(format!("w{i}"), 0)]);
    }
    assert!(retrieve_from_cache(&mut c, "k0").is_some());
    insert_into_cache(&mut c, "k100", &vec![]);
    assert!(retrieve_from_cache(&mut c, "k0").is_some());
    assert_eq!(retrieve_from_cache(&mut c, "k1"), None);
    assert!(retrieve_from_cache(&mut c, "k2").is_some());
}

#[test]
fn cache_update_of_existing_key_evicts_nothing() {
    let mut c = MatchCache::new();
    for i in 0..100 {
        insert_into_cache(&mut c, &format!("k{i}"), &vec![]);
    }
    insert_into_cache(&mut c, "k5", &vec![("x".to_string(), 1)]);
    for i in 0..100 {
        assert!(retrieve_from_cache(&mut c, &format!("k{i}")).is_some());
    }
    assert_eq!(retrieve_from_cache(&mut c, "k5"), Some(vec![("x".to_string(), 1)]));
}

#[test]
fn process_keeps_positions_and_popularity() {
    let mut dm = DocumentMap::new();
    let d = dm.add_doc("Don't Stop (Now)".to_string());
    let mut wm = WordMap::new();
    d.process(&mut wm).unwrap();
    for (pos, t) in ["dont", "stop", "now"].iter().enumerate() {
        let w = wm.get_word(t).unwrap();
        assert_eq!(w.in_records, vec![WordInRecord { idx: d.id, pos: pos as u32 }]);
        assert_eq!(w.position, vec![pos as u32]);
        assert_eq!(w.popularity, 1);
    }
    assert_eq!(wm.len(), 3);
}

#[test]
fn highlight_changes_pairs_by_index() {
    let b = |w: &str| format!("<span style='font-weight:bold;'>{w}</span>");
    let r = highlight_changes(&strings(&["cd", "ab"]), &strings(&["AB", "CD"]), &vec![1, 0]);
    assert_eq!(r, format!("{} {}", b("AB"), b("CD")));
    let r = highlight_changes(&strings(&["f", "a"]), &strings(&["a", "b", "c", "d", "e", "F"]), &vec![5, 0, 1]);
    assert_eq!(r, format!("{} b c d e {}", b("a"), b("F")));
}

#[test]
fn sort_raw_result_keeps_min_of_count_and_ten() {
    let mut d = DocumentMap::new();
    let mut cands = HashMap::new();
    for i in 0..25u32 {
        d.add_doc(format!("alpha {i}"));
        cands.insert(i, (1usize, 0usize));
    }
    assert_eq!(d.sort_raw_result("alpha", &cands).unwrap().len(), 10);
    let few: HashMap<u32, (usize, usize)> = (0..3u32).map(|i| (i, (1usize, 0usize))).collect();
    assert_eq!(d.sort_raw_result("alpha", &few).unwrap().len(), 3);
}
