use segcore::query::{
    score_less, Field, FieldTerms, QueryDocumentTree, Score, SimpleStatisticsProvider,
    TantivyDocument, Term,
};

struct TestStatisticsBuilder {
    document_count: u64,
    term_doc_freq: Vec<(Term, u64)>,
}

impl TestStatisticsBuilder {
    fn new() -> TestStatisticsBuilder {
        TestStatisticsBuilder { document_count: 0, term_doc_freq: Vec::new() }
    }

    fn add_document(&mut self, document: &str) {
        self.document_count += 1;
        for word in document.split_whitespace() {
            let term = Term::from_field_text(Field::from_field_id(0), word);
            let mut found = false;
            for entry in self.term_doc_freq.iter_mut() {
                if entry.0.term_eq(&term) {
                    entry.1 += 1;
                    found = true;
                    break;
                }
            }
            if !found {
                self.term_doc_freq.push((term, 1));
            }
        }
    }

    fn provider(self) -> SimpleStatisticsProvider {
        SimpleStatisticsProvider::new(self.document_count, self.term_doc_freq)
    }
}

#[test]
fn test_term_to_field_terms() {
    // Given
    let mut field_terms = FieldTerms::new();

    let mut stats_builder = TestStatisticsBuilder::new();
    stats_builder.add_document("This is the first document");
    let stats_provider = stats_builder.provider();

    let document_term = Term::from_field_text(Field::from_field_id(0), "document");
    let document_term_tree = QueryDocumentTree::Term(document_term.clone());

    // When
    document_term_tree.to_field_terms(&mut field_terms, &stats_provider);

    // Then
    assert!(field_terms.contains(Field::from_field_id(0), &document_term));
}

#[test]
fn test_disjunction_to_field_terms() {
    // Given
    let mut field_terms = FieldTerms::new();

    let mut stats_builder = TestStatisticsBuilder::new();
    stats_builder.add_document("This is the first document");
    let stats_provider = stats_builder.provider();

    let document_term = Term::from_field_text(Field::from_field_id(0), "document");
    let document_term_tree = QueryDocumentTree::Term(document_term.clone());
    let first_term = Term::from_field_text(Field::from_field_id(0), "first");
    let first_term_tree = QueryDocumentTree::Term(first_term.clone());
    let non_existent_term = Term::from_field_text(Field::from_field_id(0), "fourth");
    let non_existent_term_tree = QueryDocumentTree::Term(non_existent_term.clone());
    let disjunction = QueryDocumentTree::Disjunction(vec![
        document_term_tree,
        first_term_tree,
        non_existent_term_tree,
    ]);

    // When
    disjunction.to_field_terms(&mut field_terms, &stats_provider);

    // Then
    assert!(field_terms.contains(Field::from_field_id(0), &document_term));
    assert!(field_terms.contains(Field::from_field_id(0), &first_term));
    assert!(field_terms.contains(Field::from_field_id(0), &non_existent_term));
}

#[test]
fn test_conjunction_to_field_terms() {
    // Given
    let mut field_terms = FieldTerms::new();

    let mut stats_builder = TestStatisticsBuilder::new();
    stats_builder.add_document("This is the first document");
    let stats_provider = stats_builder.provider();

    let document_term = Term::from_field_text(Field::from_field_id(0), "document");
    let document_term_tree = QueryDocumentTree::Term(document_term.clone());
    let first_term = Term::from_field_text(Field::from_field_id(0), "first");
    let first_term_tree = QueryDocumentTree::Term(first_term.clone());
    let non_existent_term = Term::from_field_text(Field::from_field_id(0), "fourth");
    let non_existent_term_tree = QueryDocumentTree::Term(non_existent_term.clone());
    let conjunction = QueryDocumentTree::Conjunction(vec![
        document_term_tree,
        first_term_tree,
        non_existent_term_tree,
    ]);

    // When
    conjunction.to_field_terms(&mut field_terms, &stats_provider);

    // Then
    assert!(!field_terms.contains(Field::from_field_id(0), &document_term));
    assert!(!field_terms.contains(Field::from_field_id(0), &first_term));
    assert!(field_terms.contains(Field::from_field_id(0), &non_existent_term));
}

#[test]
fn test_to_document_joins_terms() {
    let mut stats_builder = TestStatisticsBuilder::new();
    stats_builder.add_document("alpha beta");
    let stats_provider = stats_builder.provider();

    let alpha = QueryDocumentTree::Term(Term::from_field_text(Field::from_field_id(0), "alpha"));
    let beta = QueryDocumentTree::Term(Term::from_field_text(Field::from_field_id(0), "beta"));
    let disjunction = QueryDocumentTree::Disjunction(vec![alpha, beta]);

    let mut document = TantivyDocument::new();
    disjunction.to_document(&mut document, &stats_provider);

    assert_eq!(document.len(), 1);
    let (field_id, text) = document.entry_at(0);
    assert_eq!(field_id, 0);
    assert_eq!(text, "alpha beta".to_string());
}

#[test]
fn test_to_field_terms_deduplicates() {
    let mut field_terms = FieldTerms::new();
    let stats_provider = TestStatisticsBuilder::new().provider();

    let t1 = QueryDocumentTree::Term(Term::from_field_text(Field::from_field_id(0), "same"));
    let t2 = QueryDocumentTree::Term(Term::from_field_text(Field::from_field_id(0), "same"));
    let disjunction = QueryDocumentTree::Disjunction(vec![t1, t2]);

    let mut document = TantivyDocument::new();
    disjunction.to_field_terms(&mut field_terms, &stats_provider);
    disjunction.to_document(&mut document, &stats_provider);

    assert_eq!(document.len(), 1);
    let (_, text) = document.entry_at(0);
    assert_eq!(text, "same".to_string());
}

#[test]
fn test_multiple_fields_grouped() {
    let mut field_terms = FieldTerms::new();
    let stats_provider = TestStatisticsBuilder::new().provider();

    let a0 = Term::from_field_text(Field::from_field_id(0), "a");
    let b1 = Term::from_field_text(Field::from_field_id(1), "b");
    let c0 = Term::from_field_text(Field::from_field_id(0), "c");
    let disjunction = QueryDocumentTree::Disjunction(vec![
        QueryDocumentTree::Term(a0.clone()),
        QueryDocumentTree::Term(b1.clone()),
        QueryDocumentTree::Term(c0.clone()),
    ]);

    disjunction.to_field_terms(&mut field_terms, &stats_provider);
    assert!(field_terms.contains(Field::from_field_id(0), &a0));
    assert!(field_terms.contains(Field::from_field_id(1), &b1));
    assert!(field_terms.contains(Field::from_field_id(0), &c0));
    assert!(!field_terms.contains(Field::from_field_id(1), &a0));

    let mut document = TantivyDocument::new();
    let mut document_term_count: usize = 0;
    disjunction.to_document(&mut document, &stats_provider);
    for i in 0..document.len() {
        let (field_id, text) = document.entry_at(i);
        if field_id == 0 {
            assert_eq!(text, "a c".to_string());
        } else {
            assert_eq!(field_id, 1);
            assert_eq!(text, "b".to_string());
        }
        document_term_count += 1;
    }
    assert_eq!(document_term_count, 2);
}

#[test]
fn test_rarer_terms_score_higher() {
    let mut stats_builder = TestStatisticsBuilder::new();
    stats_builder.add_document("common word one");
    stats_builder.add_document("common word two");
    stats_builder.add_document("common rare");
    let stats_provider = stats_builder.provider();

    let common = QueryDocumentTree::Term(Term::from_field_text(Field::from_field_id(0), "common"));
    let rare = QueryDocumentTree::Term(Term::from_field_text(Field::from_field_id(0), "rare"));
    let common_score = common.score(&stats_provider);
    let rare_score = rare.score(&stats_provider);
    assert!(score_less(&common_score, &rare_score));
    // with 3 documents, a frequency-1 term scores 8/3 and a frequency-3 term 8/7
    assert_eq!(rare_score, Score::Ratio { num: 8, den: 3 });
    assert_eq!(common_score, Score::Ratio { num: 8, den: 7 });
}
