use tantivy::docset::{exclusion, intersection, phrase_match, union, TERMINATED};

#[test]
fn boolean_combinations() {
    let a = [1u32, 3, 5, 7];
    let b = [3u32, 4, 5, 8];
    assert_eq!(intersection(&a, &b), vec![3, 5]);
    assert_eq!(union(&a, &b), vec![1, 3, 4, 5, 7, 8]);
    assert_eq!(exclusion(&a, &b), vec![1, 7]);
    assert_eq!(TERMINATED, u32::MAX);
}

#[test]
fn boolean_algebra_on_match_sets() {
    let q = [0u32, 2, 9, 40];
    let empty: [u32; 0] = [];
    assert_eq!(intersection(&q, &q), q.to_vec());
    assert_eq!(union(&q, &q), q.to_vec());
    assert!(exclusion(&q, &q).is_empty());
    assert_eq!(union(&empty, &q), q.to_vec());
    assert!(intersection(&empty, &q).is_empty());
}

#[test]
fn must_not_filters_bm25_example() {
    // Documents "a b c", "a c", "b c", "a b c d", "d": the query "+d -a -b".
    let a = [0u32, 1, 3];
    let b = [0u32, 2, 3];
    let d = [3u32, 4];
    let without_a = exclusion(&d, &a);
    assert_eq!(exclusion(&without_a, &b), vec![4]);
}

#[test]
fn phrase_requires_consecutive_positions() {
    // "the" at 0 and 4 in doc 1, "who" at 5 in doc 1 and at 0 in doc 2.
    let the = vec![(1u32, vec![0u32, 4]), (2, vec![3])];
    let who = vec![(1u32, vec![5u32]), (2, vec![0])];
    let smith = vec![(1u32, vec![2u32])];
    assert_eq!(phrase_match(&vec![the.clone(), who.clone()]), vec![1]);
    assert_eq!(phrase_match(&vec![the.clone(), smith.clone()]), Vec::<u32>::new());
    assert_eq!(phrase_match(&vec![who.clone()]), vec![1, 2]);
    let docs_the: Vec<u32> = the.iter().map(|e| e.0).collect();
    let docs_who: Vec<u32> = who.iter().map(|e| e.0).collect();
    let and = intersection(&docs_the, &docs_who);
    for doc in phrase_match(&vec![the, who]) {
        assert!(and.contains(&doc));
    }
}

fn term_docs(postings: &tantivy::postings::PostingsWriter, word: &str) -> Vec<u32> {
    let term = tantivy::term::Term::from_field_text(tantivy::term::Field::from_field_id(0), word);
    postings.term_postings(term.as_slice()).iter().map(|(doc, _)| *doc).collect()
}

#[test]
fn test_searcher_1() {
    let mut postings = tantivy::postings::PostingsWriter::new();
    for (doc, text) in ["af af af b", "a b c", "a b c d"].iter().enumerate() {
        for (position, word) in text.split_whitespace().enumerate() {
            let term = tantivy::term::Term::from_field_text(tantivy::term::Field::from_field_id(0), word);
            postings.subscribe(doc as u32, term.as_slice(), position as u32).unwrap();
        }
    }
    let get_doc_ids = |words: &[&str]| {
        let mut docs: Vec<u32> = Vec::new();
        for w in words {
            docs = union(&docs, &term_docs(&postings, w));
        }
        docs.into_iter()
            .map(|doc| tantivy::DocAddress::new(0, doc))
            .collect::<Vec<_>>()
    };
    use_addresses(get_doc_ids(&["a"]), &[(0, 1), (0, 2)]);
    use_addresses(get_doc_ids(&["af"]), &[(0, 0)]);
    use_addresses(get_doc_ids(&["b"]), &[(0, 0), (0, 1), (0, 2)]);
    use_addresses(get_doc_ids(&["c"]), &[(0, 1), (0, 2)]);
    use_addresses(get_doc_ids(&["d"]), &[(0, 2)]);
    use_addresses(get_doc_ids(&["b", "a"]), &[(0, 0), (0, 1), (0, 2)]);
}

fn use_addresses(found: Vec<tantivy::DocAddress>, expected: &[(u32, u32)]) {
    let expected: Vec<tantivy::DocAddress> =
        expected.iter().map(|&(s, d)| tantivy::DocAddress::new(s, d)).collect();
    assert_eq!(found, expected);
}
