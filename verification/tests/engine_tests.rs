use librarian_search::{Doc, SearchEngine};

fn doc(title: &str, authors: &[&str], keywords: &[&str]) -> Doc {
    Doc {
        title: title.to_string(),
        authors: authors.iter().map(|a| a.to_string()).collect(),
        keywords: keywords.iter().map(|k| k.to_string()).collect(),
    }
}

#[test]
fn index_returns_the_id_unchanged() {
    let mut eng = SearchEngine::new();
    let r = eng.index(17, &doc("Some Title", &["Someone"], &["topic"]));
    assert_eq!(r, Some(17));
}

#[test]
fn shared_trigrams_return_both_documents() {
    // Both titles contain every trigram of "programming", so each gram is
    // held by both of the two indexed documents and its idf term is
    // ln(2/2) = 0: both documents are returned, tied at score 0, ordered
    // by ascending id.
    let mut eng = SearchEngine::new();
    eng.index(1, &doc("Systems Programming", &["Alice"], &["storage"]));
    eng.index(2, &doc("Network Programming", &["Bob"], &["sockets"]));
    let hits = eng.search("programming", 10);
    assert_eq!(hits, vec![(1, 0), (2, 0)]);
}

#[test]
fn deindexed_document_is_never_returned() {
    let mut eng = SearchEngine::new();
    eng.index(1, &doc("Systems Programming", &["Alice"], &["storage"]));
    eng.index(2, &doc("Network Programming", &["Bob"], &["sockets"]));
    assert!(eng.search("systems", 10).iter().any(|e| e.0 == 1));
    eng.deindex(1);
    let hits = eng.search("systems", 10);
    assert!(hits.iter().all(|e| e.0 != 1));
    assert_eq!(hits, vec![]);
}

#[test]
fn empty_query_returns_nothing() {
    let mut eng = SearchEngine::new();
    eng.index(1, &doc("Anything At All", &["Anyone"], &["any"]));
    assert_eq!(eng.search("", 5), vec![]);
}

#[test]
fn zero_limit_returns_nothing() {
    let mut eng = SearchEngine::new();
    eng.index(1, &doc("Anything At All", &["Anyone"], &["any"]));
    assert_eq!(eng.search("anything", 0), vec![]);
}

#[test]
fn ranking_is_by_descending_score_and_limit_truncates() {
    // Title gram "abc": doc 1 holds it twice, doc 2 once, doc 3 not at
    // all; with three documents the idf term is 419430 and the damped
    // term frequencies give 419430 and 314572.
    let mut eng = SearchEngine::new();
    eng.index(1, &doc("abcabc", &[], &[]));
    eng.index(2, &doc("abc", &[], &[]));
    eng.index(3, &doc("zzzz", &[], &[]));
    let hits = eng.search("abc", 10);
    assert_eq!(hits, vec![(1, 419430), (2, 314572)]);
    assert!(hits[0].1 > hits[1].1);
    let top = eng.search("abc", 1);
    assert_eq!(top, vec![(1, 419430)]);
}

#[test]
fn queries_and_texts_are_case_folded() {
    let mut eng = SearchEngine::new();
    eng.index(1, &doc("SyStEmS", &["ALICE"], &["StOrAgE"]));
    eng.index(2, &doc("other words", &["bob"], &["misc"]));
    let by_title = eng.search("SYSTEMS", 10);
    assert_eq!(by_title.len(), 1);
    assert_eq!(by_title[0].0, 1);
    assert!(by_title[0].1 >= 1);
    let by_author = eng.search("alice", 10);
    assert_eq!(by_author.len(), 1);
    assert_eq!(by_author[0].0, 1);
    assert!(by_author[0].1 >= 1);
}

#[test]
fn author_list_counts_as_one_document() {
    let mut eng = SearchEngine::new();
    eng.index(1, &doc("t", &["shared name", "shared name"], &[]));
    eng.index(2, &doc("t", &["other"], &[]));
    // Both author strings of doc 1 hold the gram "sha" once each, so its
    // count is 2 while the authors index holds 2 documents in total.
    let hits = eng.search("shared", 10);
    assert_eq!(hits.len(), 1);
    assert_eq!(hits[0].0, 1);
    assert!(hits[0].1 >= 1);
}

#[test]
fn scores_sum_across_fields() {
    // "data" appears in the title and in a keyword of doc 1; each field
    // contributes separately and the merged score is their sum.
    let mut eng = SearchEngine::new();
    eng.index(1, &doc("data store", &[], &["data"]));
    eng.index(2, &doc("other", &[], &["misc"]));
    let merged = eng.search("data", 10);
    assert_eq!(merged.len(), 1);
    assert_eq!(merged[0].0, 1);

    let mut title_only = SearchEngine::new();
    title_only.index(1, &doc("data store", &[], &[]));
    title_only.index(2, &doc("other", &[], &[]));
    let t = title_only.search("data", 10);
    assert!(merged[0].1 > t[0].1);
}
