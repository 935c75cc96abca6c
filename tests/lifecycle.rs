use tantivy::lifecycle::Index;

const ID_A: u64 = 100;

#[test]
fn commit_ordering() {
    let mut index = Index::new();
    assert_eq!(index.add_document(vec![ID_A, 7]), 0);
    assert_eq!(index.commit(), 1);
    assert_eq!(index.delete_term(ID_A), 2);
    assert_eq!(index.add_document(vec![ID_A, 7]), 3);
    assert_eq!(index.commit(), 4);
    assert_eq!(index.num_docs(), 1);
    assert_eq!(index.searcher_docs(), vec![vec![ID_A, 7]]);
    assert_eq!(index.doc_freq(ID_A), 1);
}

#[test]
fn rollback_hides_uncommitted_documents() {
    let mut index = Index::new();
    index.add_document(vec![1]);
    index.commit();
    index.add_document(vec![2]);
    index.delete_term(1);
    assert_eq!(index.num_docs(), 1);
    index.rollback();
    assert_eq!(index.num_docs(), 1);
    assert_eq!(index.searcher_docs(), vec![vec![1]]);
    index.commit();
    assert_eq!(index.searcher_docs(), vec![vec![1]]);
}

#[test]
fn delete_consistency() {
    // Documents "a b", "a c", "b c", "b d" then deletes of c and a, then "b c", "a".
    let (a, b, c, d) = (1u64, 2u64, 3u64, 4u64);
    let mut index = Index::new();
    index.add_document(vec![a, b]);
    index.add_document(vec![a, c]);
    index.add_document(vec![b, c]);
    index.add_document(vec![b, d]);
    index.delete_term(c);
    index.delete_term(a);
    index.add_document(vec![b, c]);
    index.add_document(vec![a]);
    assert_eq!(index.num_docs(), 0);
    index.commit();
    assert_eq!(index.num_docs(), 3);
    assert_eq!(index.doc_freq(a), 1);
    assert_eq!(index.doc_freq(b), 2);
    assert_eq!(index.doc_freq(c), 1);
    assert_eq!(index.doc_freq(d), 1);
}

#[test]
fn deletes_by_term_count_remaining_documents() {
    let mut index = Index::new();
    for id in [63u64, 70, 34, 1, 38, 33, 40, 17] {
        index.add_document(vec![id]);
    }
    index.delete_term(38);
    index.delete_term(34);
    index.commit();
    assert_eq!(index.num_docs(), 6);
    assert_eq!(index.doc_freq(38), 0);
}

/// The term ids of the whitespace-separated words of a text field.
fn words(text: &str) -> Vec<u64> {
    text.split_whitespace()
        .map(|w| w.bytes().fold(0u64, |h, b| h * 131 + b as u64))
        .collect()
}

fn word(w: &str) -> u64 {
    words(w)[0]
}

#[test]
fn test_indexing() {
    let mut index_writer = Index::new();
    index_writer.add_document(words("af b"));
    index_writer.add_document(words("a b c"));
    index_writer.add_document(words("a b c d"));
    index_writer.commit();
}

#[test]
fn test_docfreq1() {
    let mut index_writer = Index::new();
    index_writer.add_document(words("a b c"));
    index_writer.commit();
    index_writer.add_document(words("a"));
    index_writer.add_document(words("a a"));
    index_writer.commit();
    index_writer.add_document(words("c"));
    index_writer.commit();
    assert_eq!(index_writer.doc_freq(word("a")), 3);
    assert_eq!(index_writer.doc_freq(word("b")), 1);
    assert_eq!(index_writer.doc_freq(word("c")), 2);
    assert_eq!(index_writer.doc_freq(word("d")), 0);
}

#[test]
fn test_delete_postings2() {
    let mut index_writer = Index::new();
    index_writer.add_document(words("63"));
    index_writer.add_document(words("70"));
    index_writer.add_document(words("34"));
    index_writer.add_document(words("1"));
    index_writer.add_document(words("38"));
    index_writer.add_document(words("33"));
    index_writer.add_document(words("40"));
    index_writer.add_document(words("17"));
    index_writer.delete_term(word("38"));
    index_writer.delete_term(word("34"));
    index_writer.commit();
    assert_eq!(index_writer.num_docs(), 6);
}

#[test]
fn test_searcher_2() {
    let mut index_writer = Index::new();
    assert_eq!(index_writer.num_docs(), 0);
    index_writer.add_document(words("af b"));
    index_writer.add_document(words("a b c"));
    index_writer.add_document(words("a b c d"));
    index_writer.commit();
    assert_eq!(index_writer.num_docs(), 3);
}
