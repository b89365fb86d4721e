use librarian_search::TextIndex;

fn idx3() -> TextIndex {
    TextIndex::new(3).unwrap()
}

#[test]
fn gram_length_validated_at_construction() {
    assert!(TextIndex::new(0).is_none());
    assert!(TextIndex::new(9).is_none());
    assert!(TextIndex::new(1).is_some());
    assert!(TextIndex::new(8).is_some());
    assert!(TextIndex::new(3).is_some());
}

#[test]
fn empty_index_finds_nothing() {
    let idx = idx3();
    assert_eq!(idx.search(&b"abc".to_vec()), vec![]);
    assert_eq!(idx.total_docs, 0);
}

#[test]
fn single_unique_gram_scores_exactly() {
    // Gram "abc": count 1, max 1, one document out of two in total.
    // tf = SCALE, idf = ln(2/1) = 726817, term = 726817.
    let mut idx = idx3();
    assert!(idx.insert(1, &b"abc".to_vec()));
    assert!(idx.insert(2, &b"xyz".to_vec()));
    assert_eq!(idx.search(&b"abc".to_vec()), vec![(1, 726817)]);
}

#[test]
fn repeated_occurrences_rank_higher() {
    // Doc 1 holds "abc" twice, doc 2 once; three documents in total.
    // idf = ln(3/2) ~ 2*(3-2)/(3+2) = 419430 in fixed point.
    // Doc 1: tf = SCALE, term = 419430. Doc 2: tf = 3/4 SCALE, term = 314572.
    let mut idx = idx3();
    assert!(idx.insert_many(1, &vec![b"abc".to_vec(), b"abc".to_vec()]));
    assert!(idx.insert(2, &b"abc".to_vec()));
    assert!(idx.insert(3, &b"zzz".to_vec()));
    assert_eq!(idx.search(&b"abc".to_vec()), vec![(1, 419430), (2, 314572)]);
}

#[test]
fn short_text_still_counts_as_document() {
    let mut idx = idx3();
    assert!(idx.insert(1, &b"ab".to_vec()));
    assert_eq!(idx.total_docs, 1);
    assert_eq!(idx.search(&b"ab ".to_vec()), vec![]);
}

#[test]
fn insert_many_counts_one_document_for_the_group() {
    let mut idx = idx3();
    assert!(idx.insert_many(5, &vec![b"abcd".to_vec(), b"efgh".to_vec()]));
    assert_eq!(idx.total_docs, 1);
    // An empty group still counts one document and touches no posting list.
    assert!(idx.insert_many(6, &vec![]));
    assert_eq!(idx.total_docs, 2);
    let hits = idx.search(&b"abc".to_vec());
    assert_eq!(hits.len(), 1);
    assert_eq!(hits[0].0, 5);
}

#[test]
fn insert_then_remove_restores_state() {
    // Every gram of "abcd" occurs once and id 7 was never indexed, so the
    // round trip restores the total count and every posting list.
    let mut idx = idx3();
    assert!(idx.insert(7, &b"abcd".to_vec()));
    assert_eq!(idx.total_docs, 1);
    idx.remove(7);
    assert_eq!(idx.total_docs, 0);
    assert_eq!(idx.search(&b"abcd".to_vec()), vec![]);
}

#[test]
fn remove_decrements_counts_by_one_only() {
    // "aaaa" holds the gram "aaa" twice; one removal leaves a count of 1,
    // so the document still matches (with idf 0, as total_docs fell to 0).
    let mut idx = idx3();
    assert!(idx.insert(1, &b"aaaa".to_vec()));
    idx.remove(1);
    assert_eq!(idx.search(&b"aaa".to_vec()), vec![(1, 0)]);
}

#[test]
fn remove_of_absent_id_saturates_at_zero() {
    let mut idx = idx3();
    idx.remove(42);
    assert_eq!(idx.total_docs, 0);
    assert!(idx.insert(1, &b"abc".to_vec()));
    idx.remove(42);
    assert_eq!(idx.total_docs, 0);
    // Doc 1's postings are untouched by removals of an absent id.
    let hits = idx.search(&b"abc".to_vec());
    assert_eq!(hits.len(), 1);
    assert_eq!(hits[0].0, 1);
}

#[test]
fn query_shorter_than_gram_length_matches_nothing() {
    let mut idx = idx3();
    assert!(idx.insert(1, &b"abcdef".to_vec()));
    assert_eq!(idx.search(&b"".to_vec()), vec![]);
    assert_eq!(idx.search(&b"a".to_vec()), vec![]);
    assert_eq!(idx.search(&b"ab".to_vec()), vec![]);
}

#[test]
fn unique_gram_returns_only_its_document() {
    let mut idx = idx3();
    assert!(idx.insert(1, &b"xyzw".to_vec()));
    assert!(idx.insert(2, &b"abcd".to_vec()));
    let hits = idx.search(&b"xyz".to_vec());
    assert_eq!(hits.len(), 1);
    assert_eq!(hits[0].0, 1);
    assert!(hits[0].1 >= 1);
}

#[test]
fn repeated_query_grams_accumulate() {
    // "abcabc" contains the gram "abc" twice, so doc 1's term is added twice.
    let mut idx = idx3();
    assert!(idx.insert(1, &b"abc".to_vec()));
    assert!(idx.insert(2, &b"xyz".to_vec()));
    let once = idx.search(&b"abc".to_vec())[0].1;
    let hits = idx.search(&b"abcabc".to_vec());
    let doc1 = hits.iter().find(|e| e.0 == 1).unwrap();
    assert!(doc1.1 > once);
}
