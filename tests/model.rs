use khoj::model::{Model, Timestamp};
use khoj::ranking::{DocMatch, Ranking};
use khoj::terms::TermStats;

fn chars(s: &str) -> Vec<char> {
    s.chars().collect()
}

fn at(secs: u64) -> Timestamp {
    Timestamp { secs, nanos: 0 }
}

fn corpus(docs: &[(&str, &str)]) -> Model {
    let mut m = Model::new();
    for (i, (path, text)) in docs.iter().enumerate() {
        m.add_document(path.to_string(), at(i as u64 + 1), &chars(text));
    }
    m
}

fn find<'a>(r: &'a Ranking, path: &str) -> &'a DocMatch {
    r.matches.iter().find(|m| m.path == path).expect("document is ranked")
}

fn df(m: &Model, t: &str) -> usize {
    m.document_frequency(&t.to_string())
}

fn stats_of(m: &Model, path: &str) -> Vec<(String, Vec<usize>)> {
    let (_, d) = m.documents().iter().find(|(p, _)| p == path).unwrap();
    let mut v = d.stats().postings().clone();
    v.sort();
    v
}

/// The score of a match, with the inverse document frequency of each query token.
fn score(r: &Ranking, m: &DocMatch) -> f64 {
    if m.term_count == 0 {
        return 0.0;
    }
    let mut base = 0.0;
    for (k, c) in m.counts.iter().enumerate() {
        let tf = *c as f64 / m.term_count as f64;
        let idf = (r.n_docs as f64 / r.doc_freq[k] as f64).log10();
        base += tf * idf;
    }
    base * m.coverage.0 as f64 / m.coverage.1 as f64 * m.boost as f64
}

#[test]
fn requires_reindexing_compares_times_strictly() {
    let mut m = Model::new();
    let p = "/docs/a.txt".to_string();
    assert!(m.requires_reindexing(&p, at(5)));
    m.add_document(p.clone(), Timestamp { secs: 5, nanos: 10 }, &chars("alpha"));
    assert!(!m.requires_reindexing(&p, Timestamp { secs: 5, nanos: 10 }));
    assert!(!m.requires_reindexing(&p, Timestamp { secs: 5, nanos: 9 }));
    assert!(!m.requires_reindexing(&p, at(4)));
    assert!(m.requires_reindexing(&p, Timestamp { secs: 5, nanos: 11 }));
    assert!(m.requires_reindexing(&p, at(6)));
    assert!(m.requires_reindexing(&"/docs/b.txt".to_string(), at(1)));
}

#[test]
fn timestamps_order_by_seconds_then_nanoseconds() {
    assert!(at(1).is_before(&at(2)));
    assert!(!at(2).is_before(&at(2)));
    assert!(Timestamp { secs: 2, nanos: 1 }.is_before(&Timestamp { secs: 2, nanos: 2 }));
    assert!(!Timestamp { secs: 3, nanos: 0 }.is_before(&Timestamp { secs: 2, nanos: 999 }));
}

#[test]
fn indexing_an_unchanged_file_twice_changes_nothing() {
    let mut m = corpus(&[("/a", "red fish blue fish"), ("/b", "one fish")]);
    let before = stats_of(&m, "/a");
    let df_before: Vec<usize> = ["red", "fish", "blue", "one"].iter().map(|t| df(&m, t)).collect();
    let p = "/a".to_string();
    assert!(!m.requires_reindexing(&p, at(1)));
    m.add_document(p.clone(), at(1), &chars("red fish blue fish"));
    assert_eq!(stats_of(&m, "/a"), before);
    let df_after: Vec<usize> = ["red", "fish", "blue", "one"].iter().map(|t| df(&m, t)).collect();
    assert_eq!(df_after, df_before);
    assert_eq!(m.documents().len(), 2);
}

#[test]
fn term_statistics_record_counts_and_offsets() {
    let s = Model::compute_search_data(&chars("the cat saw the other cat"));
    assert_eq!(s.term_count(), 6);
    assert_eq!(s.freq(&"cat".to_string()), 2);
    assert_eq!(s.freq(&"the".to_string()), 2);
    assert_eq!(s.freq(&"dog".to_string()), 0);
    assert_eq!(s.positions_of(&"cat".to_string()), Some(&vec![1, 5]));
    assert_eq!(s.positions_of(&"saw".to_string()), Some(&vec![2]));
    assert_eq!(s.positions_of(&"dog".to_string()), None);
    let total: usize = s.postings().iter().map(|(_, p)| p.len()).sum();
    assert_eq!(total, 6);
}

#[test]
fn empty_document_has_no_terms() {
    let s = Model::compute_search_data(&chars(" ... "));
    assert_eq!(s.term_count(), 0);
    assert!(s.postings().is_empty());
}

#[test]
fn document_frequency_counts_documents_containing_the_token() {
    let mut m = corpus(&[("/a", "apple banana apple"), ("/b", "banana plum"), ("/c", "plum")]);
    assert_eq!(df(&m, "apple"), 1);
    assert_eq!(df(&m, "banana"), 2);
    assert_eq!(df(&m, "plum"), 2);
    assert_eq!(df(&m, "durian"), 0);
    m.add_document("/b".to_string(), at(9), &chars("durian"));
    assert_eq!(df(&m, "banana"), 1);
    assert_eq!(df(&m, "plum"), 1);
    assert_eq!(df(&m, "durian"), 1);
    m.add_document("/b".to_string(), at(10), &chars("durian"));
    m.add_document("/b".to_string(), at(11), &chars(""));
    assert_eq!(df(&m, "durian"), 0);
    assert_eq!(m.documents().len(), 3);
    for t in ["apple", "banana", "plum", "durian"] {
        let containing = m.documents().iter().filter(|(_, d)| d.stats().freq(&t.to_string()) > 0).count();
        assert_eq!(df(&m, t), containing, "token {}", t);
    }
}

#[test]
fn single_token_scores_match_tf_idf() {
    let m = corpus(&[
        ("/d1", "apple apple banana plum"),
        ("/d2", "apple durian"),
        ("/d3", "banana banana banana"),
    ]);
    let r = m.rank_query(&chars("apple"));
    assert_eq!(r.n_docs, 3);
    assert_eq!(r.distinct, 1);
    assert_eq!(r.doc_freq, vec![2]);
    let d1 = find(&r, "/d1");
    assert_eq!((d1.counts.clone(), d1.term_count), (vec![2], 4));
    let d2 = find(&r, "/d2");
    assert_eq!((d2.counts.clone(), d2.term_count), (vec![1], 2));
    let d3 = find(&r, "/d3");
    assert_eq!((d3.counts.clone(), d3.term_count), (vec![0], 3));
    for d in [d1, d2, d3] {
        assert_eq!(d.coverage, (1, 1));
        assert_eq!(d.boost, 1);
        assert!(!d.phrase);
    }
    let idf = (3.0f64 / 2.0).log10();
    assert!((score(&r, d1) - 0.5 * idf).abs() < 1e-12);
    assert!((score(&r, d2) - 0.5 * idf).abs() < 1e-12);
    assert_eq!(score(&r, d3), 0.0);

    let r = m.rank_query(&chars("banana"));
    assert_eq!(r.doc_freq, vec![2]);
    let idf = (3.0f64 / 2.0).log10();
    assert!((score(&r, find(&r, "/d1")) - 0.25 * idf).abs() < 1e-12);
    assert!((score(&r, find(&r, "/d3")) - idf).abs() < 1e-12);

    let r = m.rank_query(&chars("durian"));
    assert_eq!(r.doc_freq, vec![1]);
    assert!((score(&r, find(&r, "/d2")) - 0.5 * 3.0f64.log10()).abs() < 1e-12);
}

#[test]
fn unseen_token_has_document_frequency_one() {
    let m = corpus(&[("/a", "x y"), ("/b", "y z")]);
    let r = m.rank_query(&chars("nothing"));
    assert_eq!(r.doc_freq, vec![1]);
    assert!(r.matches.iter().all(|d| d.counts == vec![0]));
}

#[test]
fn document_with_both_terms_ranks_higher() {
    let m = corpus(&[("/both", "alpha beta gamma delta"), ("/one", "alpha gamma delta epsilon"), ("/other", "zeta")]);
    let r = m.rank_query(&chars("alpha beta"));
    assert_eq!(r.distinct, 2);
    let both = find(&r, "/both");
    let one = find(&r, "/one");
    assert_eq!(both.present, 2);
    assert_eq!(both.coverage, (3, 2));
    assert_eq!(one.present, 1);
    assert_eq!(one.coverage, (1, 4));
    assert!(score(&r, both) > score(&r, one));
}

#[test]
fn adjacent_phrase_doubles_the_score() {
    let m = corpus(&[("/far", "act of the section"), ("/near", "the act section of"), ("/none", "other words")]);
    let r = m.rank_query(&chars("act section"));
    let far = find(&r, "/far");
    let near = find(&r, "/near");
    assert!(!far.phrase);
    assert!(near.phrase);
    assert_eq!(far.boost, 1);
    assert_eq!(near.boost, 2);
    assert_eq!(far.counts, near.counts);
    assert_eq!(far.coverage, near.coverage);
    assert!((score(&r, near) - 2.0 * score(&r, far)).abs() < 1e-12);
    assert!(score(&r, far) > 0.0);
}

#[test]
fn phrase_must_follow_query_order() {
    let m = corpus(&[("/rev", "section act"), ("/fwd", "act section")]);
    let r = m.rank_query(&chars("act section"));
    assert!(!find(&r, "/rev").phrase);
    assert!(find(&r, "/fwd").phrase);
}

#[test]
fn repeated_query_tokens_need_repeated_phrase() {
    let m = corpus(&[("/a", "go stop go"), ("/b", "go go stop")]);
    let r = m.rank_query(&chars("go go"));
    assert_eq!(r.distinct, 1);
    assert!(!find(&r, "/a").phrase);
    assert!(find(&r, "/b").phrase);
    assert_eq!(find(&r, "/b").coverage, (1, 1));
    assert_eq!(find(&r, "/b").counts, vec![2, 2]);
}

#[test]
fn quick_fox_scenario_ranks_phrase_document_first() {
    let m = corpus(&[
        ("doc1", "the quick brown fox"),
        ("doc2", "the lazy dog"),
        ("doc3", "quick fox quick fox"),
    ]);
    let r = m.rank_query(&chars("quick fox"));
    let d1 = find(&r, "doc1");
    let d2 = find(&r, "doc2");
    let d3 = find(&r, "doc3");
    assert_eq!(r.doc_freq, vec![2, 2]);
    assert_eq!((d3.counts.clone(), d3.term_count, d3.phrase, d3.coverage, d3.boost), (vec![2, 2], 4, true, (3, 2), 2));
    assert_eq!((d1.counts.clone(), d1.term_count, d1.phrase, d1.coverage, d1.boost), (vec![1, 1], 4, false, (3, 2), 1));
    assert_eq!((d2.counts.clone(), d2.present, d2.coverage), (vec![0, 0], 0, (0, 4)));
    let mut ranked: Vec<(&str, f64)> = r.matches.iter().map(|d| (d.path.as_str(), score(&r, d))).collect();
    ranked.sort_by(|a, b| b.1.partial_cmp(&a.1).unwrap().then(a.0.cmp(b.0)));
    let order: Vec<&str> = ranked.iter().map(|(p, _)| *p).collect();
    assert_eq!(order, vec!["doc3", "doc1", "doc2"]);
    assert!(ranked[2].1.abs() < 1e-12);
}

#[test]
fn empty_query_ranks_every_document_at_zero() {
    let m = corpus(&[("/a", "x"), ("/b", "y")]);
    let r = m.rank_query(&chars("  ,, "));
    assert!(r.tokens.is_empty());
    assert_eq!(r.distinct, 0);
    assert_eq!(r.matches.len(), 2);
    assert!(r.matches.iter().all(|d| d.counts.is_empty() && !d.phrase && d.boost == 1));
}

#[test]
fn stored_parts_round_trip() {
    let m = corpus(&[("/a", "red fish blue fish"), ("/b", "one fish two fish")]);
    let mut docs = Vec::new();
    for (p, d) in m.documents() {
        let s = d.stats();
        let parts = TermStats::from_parts(s.term_count(), s.postings().clone()).expect("stored parts are well formed");
        docs.push((p.clone(), khoj::model::Doc::new(parts, d.last_modified())));
    }
    let m2 = Model::from_documents(docs);
    for q in ["fish", "red fish", "one two"] {
        let a = m.rank_query(&chars(q));
        let b = m2.rank_query(&chars(q));
        assert_eq!(a.doc_freq, b.doc_freq);
        for (x, y) in a.matches.iter().zip(b.matches.iter()) {
            assert_eq!((&x.path, &x.counts, x.term_count, x.present, x.phrase), (&y.path, &y.counts, y.term_count, y.present, y.phrase));
        }
    }
}

#[test]
fn malformed_parts_are_refused() {
    let ok = vec![("a".to_string(), vec![0, 2]), ("b".to_string(), vec![1])];
    assert!(TermStats::from_parts(3, ok).is_some());
    assert!(TermStats::from_parts(2, vec![("a".to_string(), vec![0, 2])]).is_none());
    assert!(TermStats::from_parts(3, vec![("a".to_string(), vec![2, 1])]).is_none());
    assert!(TermStats::from_parts(3, vec![("a".to_string(), vec![1, 1])]).is_none());
    assert!(TermStats::from_parts(3, vec![("a".to_string(), vec![])]).is_none());
    assert!(TermStats::from_parts(3, vec![("a".to_string(), vec![0]), ("a".to_string(), vec![1])]).is_none());
}

#[test]
fn later_documents_replace_earlier_ones_on_load() {
    let s1 = Model::compute_search_data(&chars("old words"));
    let s2 = Model::compute_search_data(&chars("new"));
    let docs = vec![
        ("/x".to_string(), khoj::model::Doc::new(s1, at(1))),
        ("/x".to_string(), khoj::model::Doc::new(s2, at(2))),
    ];
    let m = Model::from_documents(docs);
    assert_eq!(m.documents().len(), 1);
    assert_eq!(df(&m, "old"), 0);
    assert_eq!(df(&m, "new"), 1);
    assert!(!m.requires_reindexing(&"/x".to_string(), at(2)));
}
