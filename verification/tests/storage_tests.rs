use portable_brains::lancedb_storage::LanceDBStorage;
use portable_brains::storage::Storage;
use portable_brains::storage::StorageBackend;
use portable_brains::errors::PortableBrainsError;

#[test]
fn new_store_appends_the_canonical_suffix() {
    let st = LanceDBStorage::new("brains").unwrap();
    assert_eq!(st.db_path, "brains.lancedb");
    let st2 = LanceDBStorage::new("brains.lancedb").unwrap();
    assert_eq!(st2.db_path, "brains.lancedb");
}

#[test]
fn stored_document_is_found_and_not_stored_twice() {
    let mut st = LanceDBStorage::new("demo").unwrap();
    assert_eq!(st.document_exists("docs/a.txt").unwrap(), false);
    let id = st.store_document("docs/a.txt", b"hello there").unwrap();
    // a hyphenated UUID identifier
    assert_eq!(id.len(), 36);
    assert_eq!(st.document_exists("docs/a.txt").unwrap(), true);
    assert_eq!(st.document_exists("docs/b.txt").unwrap(), false);
    // the same path is rejected on a second store
    let again = st.store_document("docs/a.txt", b"different bytes");
    assert!(matches!(again, Err(PortableBrainsError::StorageError { .. })));
}

#[test]
fn stored_document_keeps_name_type_and_payload() {
    let mut st = LanceDBStorage::new("demo").unwrap();
    st.store_document("dir/sub/Report.PDF", b"%PDF-fake").unwrap();
    let doc = &st.docs[0];
    assert_eq!(doc.filename, "Report.PDF");
    assert_eq!(doc.file_path, "dir/sub/Report.PDF");
    assert_eq!(doc.file_type, "pdf");
    assert_eq!(doc.file_data, b"%PDF-fake".to_vec());
    assert!(doc.created_at.is_some());
}

#[test]
fn model_verification_pins_the_first_name() {
    let mut st = LanceDBStorage::new("demo").unwrap();
    st.verify_or_set_model("m1").unwrap();
    st.verify_or_set_model("m1").unwrap();
    let third = st.verify_or_set_model("m2");
    match third {
        Err(PortableBrainsError::ModelMismatch { expected, found }) => {
            assert_eq!(expected, "m2");
            assert_eq!(found, "m1");
        }
        other => panic!("expected a model mismatch, got {:?}", other),
    }
    // the stored model is untouched by the failed attempt
    let meta = st.get_meta_info().unwrap();
    assert_eq!(meta.embedding_model, "m1");
    assert_eq!(meta.version, "1.0.0");
}

#[test]
fn meta_reads_unknown_before_the_model_is_set() {
    let mut st = LanceDBStorage::new("demo").unwrap();
    let meta = st.get_meta_info().unwrap();
    assert_eq!(meta.version, "1.0.0");
    assert_eq!(meta.embedding_model, "unknown");
}

#[test]
fn fragment_orders_are_contiguous_from_zero() {
    let mut st = LanceDBStorage::new("demo").unwrap();
    let doc = st.store_document("a.txt", b"payload").unwrap();
    st.store_text_fragment(&doc, 0, "first fragment text").unwrap();
    st.store_text_fragment(&doc, 1, "second fragment text").unwrap();
    // a gap in the order is rejected
    let gap = st.store_text_fragment(&doc, 3, "out of sequence");
    assert!(matches!(gap, Err(PortableBrainsError::StorageError { .. })));
    // an unknown owner is rejected
    let orphan = st.store_text_fragment("no-such-document", 0, "orphan");
    assert!(matches!(orphan, Err(PortableBrainsError::StorageError { .. })));
    assert_eq!(st.frags.len(), 2);
    assert_eq!(st.frags[0].fragment_order, 0);
    assert_eq!(st.frags[1].fragment_order, 1);
}

#[test]
fn embeddings_attach_to_their_fragment_once_set() {
    let mut st = LanceDBStorage::new("demo").unwrap();
    let doc = st.store_document("a.txt", b"payload").unwrap();
    let f0 = st.store_text_fragment(&doc, 0, "first fragment text").unwrap();
    let f1 = st.store_text_fragment(&doc, 1, "second fragment text").unwrap();
    assert_eq!(st.count_fragments_without_embeddings().unwrap(), 2);

    let pending = st.get_fragments_without_embeddings(10).unwrap();
    assert_eq!(pending.len(), 2);
    assert_eq!(pending[0].0, f0);
    assert_eq!(pending[0].1, "first fragment text");
    assert_eq!(pending[1].0, f1);

    st.update_fragment_embedding(&f0, &vec![1, 2, 3]).unwrap();
    assert_eq!(st.count_fragments_without_embeddings().unwrap(), 1);
    let left = st.get_fragments_without_embeddings(10).unwrap();
    assert_eq!(left.len(), 1);
    assert_eq!(left[0].0, f1);

    // a fetch honors its limit
    let capped = st.get_fragments_without_embeddings(0).unwrap();
    assert!(capped.is_empty());

    // an unknown fragment is rejected
    let missing = st.update_fragment_embedding("no-such-fragment", &vec![9]);
    assert!(matches!(missing, Err(PortableBrainsError::StorageError { .. })));
}

#[test]
fn similarity_scores_never_increase() {
    let mut st = LanceDBStorage::new("demo").unwrap();
    let doc = st.store_document("a.txt", b"payload").unwrap();
    for k in 0..12usize {
        let content = format!("fragment number {} with enough text", k);
        st.store_text_fragment(&doc, k, &content).unwrap();
    }
    let hits = st.search_similar(&vec![7, 7], 12).unwrap();
    assert_eq!(hits.len(), 12);
    assert_eq!(hits[0].2, 1000);
    assert_eq!(hits[1].2, 900);
    assert_eq!(hits[10].2, 0);
    for w in hits.windows(2) {
        assert!(w[0].2 >= w[1].2);
    }
    let capped = st.search_similar(&vec![7, 7], 3).unwrap();
    assert_eq!(capped.len(), 3);
}

#[test]
fn backend_names_round_trip() {
    assert!(matches!(StorageBackend::from_str("duckdb"), Some(StorageBackend::DuckDB)));
    assert!(matches!(StorageBackend::from_str("DuckDB"), Some(StorageBackend::DuckDB)));
    assert!(matches!(StorageBackend::from_str("lancedb"), Some(StorageBackend::LanceDB)));
    assert!(matches!(StorageBackend::from_str("LANCEDB"), Some(StorageBackend::LanceDB)));
    assert!(StorageBackend::from_str("sqlite").is_none());
    assert_eq!(StorageBackend::DuckDB.as_str(), "duckdb");
    assert_eq!(StorageBackend::LanceDB.as_str(), "lancedb");
}

#[test]
fn batches_come_ordered_by_document_then_order() {
    let mut st = LanceDBStorage::new("demo").unwrap();
    let doc_a = st.store_document("a.txt", b"payload a").unwrap();
    let doc_b = st.store_document("b.txt", b"payload b").unwrap();
    // interleave the two documents' fragments in storage order
    let a0 = st.store_text_fragment(&doc_a, 0, "doc a fragment zero").unwrap();
    let b0 = st.store_text_fragment(&doc_b, 0, "doc b fragment zero").unwrap();
    let a1 = st.store_text_fragment(&doc_a, 1, "doc a fragment one").unwrap();
    let b1 = st.store_text_fragment(&doc_b, 1, "doc b fragment one").unwrap();
    let fetched = st.get_fragments_without_embeddings(10).unwrap();
    let ids: Vec<&str> = fetched.iter().map(|p| p.0.as_str()).collect();
    // grouped by document identifier (ascending), each group in order
    if doc_a < doc_b {
        assert_eq!(ids, vec![a0.as_str(), a1.as_str(), b0.as_str(), b1.as_str()]);
    } else {
        assert_eq!(ids, vec![b0.as_str(), b1.as_str(), a0.as_str(), a1.as_str()]);
    }
}
