use portable_brains::embed::CountingEmbedder;
use portable_brains::errors::PortableBrainsError;
use portable_brains::lancedb_storage::LanceDBStorage;
use portable_brains::pipeline::fold_meta_rows;
use portable_brains::pipeline::filter_supported;
use portable_brains::pipeline::is_supported_file;
use portable_brains::pipeline::meta_decision;
use portable_brains::pipeline::process_document;
use portable_brains::pipeline::apply_batch_embeddings;
use portable_brains::pipeline::check_embedding_count;
use portable_brains::pipeline::process_embedding_batch;
use portable_brains::pipeline::run_embedding_phase;
use portable_brains::pipeline::MetaCheck;
use portable_brains::processor::DocumentProcessor;
use portable_brains::storage::Storage;
use portable_brains::rag::clamp_results;
use portable_brains::rag::build_system_prompt;
use portable_brains::rag::parse_command;
use portable_brains::rag::resolve_endpoint_and_model;
use portable_brains::rag::AIModel;
use portable_brains::rag::ChatCommand;

#[test]
fn end_to_end_three_sentence_document() {
    let mut st = LanceDBStorage::new("demo").unwrap();
    let processor = DocumentProcessor::with_limits(20, 5, 1 << 20, 1 << 20);
    let data = b"Alpha beta gamma. Delta epsilon zeta. Eta theta iota.";
    let n = process_document(&mut st, &processor, "in/sample.txt", data).unwrap();
    assert_eq!(n, 3);
    assert_eq!(st.document_exists("in/sample.txt").unwrap(), true);
    // each sentence became one fragment; the cores reconstruct the source
    let pending = st.get_fragments_without_embeddings(10).unwrap();
    assert_eq!(pending.len(), 3);
    assert_eq!(pending[0].1, "Alpha beta gamma.");
    assert_eq!(pending[1].1, "Delta epsilon zeta.");
    assert_eq!(pending[2].1, "Eta theta iota.");
    assert_eq!(st.frags[0].fragment_order, 0);
    assert_eq!(st.frags[1].fragment_order, 1);
    assert_eq!(st.frags[2].fragment_order, 2);
    // re-ingesting the same path is a no-op failure for this file only
    let again = process_document(&mut st, &processor, "in/sample.txt", data);
    assert!(again.is_err());
    assert_eq!(st.frags.len(), 3);
}

#[test]
fn oversized_file_is_skipped_before_storing() {
    let mut st = LanceDBStorage::new("demo").unwrap();
    let processor = DocumentProcessor::with_limits(800, 100, 8, 1000);
    let r = process_document(&mut st, &processor, "in/big.txt", b"far too many bytes");
    assert!(matches!(r, Err(PortableBrainsError::SizeLimitExceeded { .. })));
    assert_eq!(st.document_exists("in/big.txt").unwrap(), false);
    assert!(st.docs.is_empty());
}

#[test]
fn five_fragments_embed_in_three_batches_of_two() {
    let mut st = LanceDBStorage::new("demo").unwrap();
    let doc = st.store_document("a.txt", b"payload").unwrap();
    for k in 0..5usize {
        let content = format!("fragment number {} with enough text", k);
        st.store_text_fragment(&doc, k, &content).unwrap();
    }
    let mut embedder = CountingEmbedder::new(4);
    let processed = run_embedding_phase(&mut st, &mut embedder, 2).unwrap();
    assert_eq!(processed, 5);
    assert_eq!(embedder.calls, 3);
    assert_eq!(st.count_fragments_without_embeddings().unwrap(), 0);
}

#[test]
fn embedding_count_mismatch_aborts_the_batch() {
    let mut st = LanceDBStorage::new("demo").unwrap();
    let doc = st.store_document("a.txt", b"payload").unwrap();
    st.store_text_fragment(&doc, 0, "first fragment text").unwrap();
    st.store_text_fragment(&doc, 1, "second fragment text").unwrap();
    let mut embedder = CountingEmbedder::new(4);
    embedder.shortfall = 1;
    let r = process_embedding_batch(&mut st, &mut embedder, 10);
    match r {
        Err(PortableBrainsError::CountMismatch { expected, got }) => {
            assert_eq!(expected, 2);
            assert_eq!(got, 1);
        }
        other => panic!("expected a count mismatch, got {:?}", other),
    }
    // nothing was persisted
    assert_eq!(st.count_fragments_without_embeddings().unwrap(), 2);
}

#[test]
fn empty_vectors_skip_their_fragment_without_failing() {
    let mut st = LanceDBStorage::new("demo").unwrap();
    let doc = st.store_document("a.txt", b"payload").unwrap();
    st.store_text_fragment(&doc, 0, "first fragment text").unwrap();
    st.store_text_fragment(&doc, 1, "second fragment text").unwrap();
    let mut embedder = CountingEmbedder::new(4);
    embedder.empty_at = Some(0);
    let n = process_embedding_batch(&mut st, &mut embedder, 10).unwrap();
    assert_eq!(n, 2);
    // one fragment was embedded, the unembeddable one stays pending
    assert_eq!(st.count_fragments_without_embeddings().unwrap(), 1);
}

#[test]
fn unembeddable_fragments_do_not_spin_the_phase_forever() {
    let mut st = LanceDBStorage::new("demo").unwrap();
    let doc = st.store_document("a.txt", b"payload").unwrap();
    st.store_text_fragment(&doc, 0, "first fragment text").unwrap();
    let mut embedder = CountingEmbedder::new(4);
    embedder.empty_at = Some(0);
    // every answer is an empty vector: the phase must stop, not loop
    let processed = run_embedding_phase(&mut st, &mut embedder, 2).unwrap();
    assert_eq!(processed, 1);
    assert_eq!(st.count_fragments_without_embeddings().unwrap(), 1);
}

#[test]
fn directory_filter_keeps_only_supported_extensions() {
    assert!(is_supported_file("a/b/c.pdf"));
    assert!(is_supported_file("notes.TXT"));
    assert!(is_supported_file("page.htm"));
    assert!(!is_supported_file("archive.zip"));
    assert!(!is_supported_file("no_extension"));
    assert!(!is_supported_file(".hidden"));
    let paths = vec![
        "a.pdf".to_string(),
        "b.md".to_string(),
        "c.docx".to_string(),
        "d".to_string(),
        "e.XLSX".to_string(),
    ];
    let kept = filter_supported(&paths);
    assert_eq!(kept, vec!["a.pdf".to_string(), "c.docx".to_string(), "e.XLSX".to_string()]);
}

#[test]
fn meta_rows_fold_with_unknown_defaults() {
    let rows = vec![
        ("embedding_model".to_string(), "m1".to_string()),
        ("junk".to_string(), "ignored".to_string()),
    ];
    let meta = fold_meta_rows(&rows);
    assert_eq!(meta.version, "unknown");
    assert_eq!(meta.embedding_model, "m1");

    let rows2 = vec![
        ("version".to_string(), "0.9".to_string()),
        ("version".to_string(), "1.0.0".to_string()),
    ];
    let meta2 = fold_meta_rows(&rows2);
    assert_eq!(meta2.version, "1.0.0");
    assert_eq!(meta2.embedding_model, "unknown");
}

#[test]
fn meta_decisions_cover_match_absent_and_mismatch() {
    assert_eq!(meta_decision(&Some("1.0.0".to_string()), "1.0.0"), MetaCheck::Matches);
    assert_eq!(meta_decision(&None, "1.0.0"), MetaCheck::Absent);
    assert_eq!(meta_decision(&Some("2.0".to_string()), "1.0.0"), MetaCheck::Mismatch);
}

#[test]
fn result_count_clamps_to_the_accepted_range() {
    assert_eq!(clamp_results(0), 5);
    assert_eq!(clamp_results(1), 1);
    assert_eq!(clamp_results(20), 20);
    assert_eq!(clamp_results(21), 5);
}

#[test]
fn chat_model_presets_resolve_endpoint_and_name() {
    assert_eq!(AIModel::Gpt4.model_name(), "gpt-4");
    assert_eq!(AIModel::MistralSmall.model_name(), "mistral-small-latest");
    assert_eq!(AIModel::Custom.model_name(), "");
    assert_eq!(
        AIModel::Gpt35Turbo.suggested_endpoint(),
        "https://api.openai.com/v1/chat/completions"
    );
    assert_eq!(
        AIModel::MistralLarge.suggested_endpoint(),
        "https://api.mistral.ai/v1/chat/completions"
    );

    let (endpoint, model) =
        resolve_endpoint_and_model(Some(AIModel::Gpt4), None, "ignored".to_string()).unwrap();
    assert_eq!(endpoint, "https://api.openai.com/v1/chat/completions");
    assert_eq!(model, "gpt-4");

    let (endpoint2, model2) = resolve_endpoint_and_model(
        Some(AIModel::Custom),
        Some("http://localhost:8000".to_string()),
        "my-model".to_string(),
    )
    .unwrap();
    assert_eq!(endpoint2, "http://localhost:8000");
    assert_eq!(model2, "my-model");

    assert!(resolve_endpoint_and_model(Some(AIModel::Custom), None, "m".to_string()).is_err());
    assert!(resolve_endpoint_and_model(None, None, "m".to_string()).is_err());
}

#[test]
fn system_prompt_joins_context_or_notes_its_absence() {
    let empty = build_system_prompt(&vec![]);
    assert!(empty.ends_with("Context:\nNo relevant documents found."));
    let full = build_system_prompt(&vec!["first passage".to_string(), "second passage".to_string()]);
    assert!(full.ends_with("Context:\nfirst passage\n\nsecond passage"));
}

#[test]
fn chat_commands_parse_ignoring_case_and_whitespace() {
    assert_eq!(parse_command(""), ChatCommand::Empty);
    assert_eq!(parse_command("   "), ChatCommand::Empty);
    assert_eq!(parse_command("quit"), ChatCommand::Quit);
    assert_eq!(parse_command("  EXIT  "), ChatCommand::Quit);
    assert_eq!(parse_command("Help"), ChatCommand::Help);
    assert_eq!(parse_command("what is this about?"), ChatCommand::Query);
}

#[test]
fn empty_store_ends_the_batch_loop_without_calling_the_backend() {
    let mut st = LanceDBStorage::new("demo").unwrap();
    let mut embedder = CountingEmbedder::new(4);
    let n = process_embedding_batch(&mut st, &mut embedder, 8).unwrap();
    assert_eq!(n, 0);
    assert_eq!(embedder.calls, 0);
    let processed = run_embedding_phase(&mut st, &mut embedder, 8).unwrap();
    assert_eq!(processed, 0);
    assert_eq!(embedder.calls, 0);
}

#[test]
fn the_count_check_accepts_exactly_matching_answers() {
    assert!(check_embedding_count(3, 3).is_ok());
    match check_embedding_count(3, 2) {
        Err(PortableBrainsError::CountMismatch { expected, got }) => {
            assert_eq!(expected, 3);
            assert_eq!(got, 2);
        }
        other => panic!("expected a count mismatch, got {:?}", other),
    }
}

#[test]
fn persisting_a_batch_answer_attaches_only_nonempty_vectors() {
    let mut st = LanceDBStorage::new("demo").unwrap();
    let doc = st.store_document("a.txt", b"payload").unwrap();
    let f0 = st.store_text_fragment(&doc, 0, "first fragment text").unwrap();
    let f1 = st.store_text_fragment(&doc, 1, "second fragment text").unwrap();
    let fetched = vec![
        (f0.clone(), "first fragment text".to_string()),
        (f1.clone(), "second fragment text".to_string()),
    ];
    let answers = vec![vec![], vec![4u64, 5, 6]];
    let updated = apply_batch_embeddings(&mut st, &fetched, &answers).unwrap();
    assert_eq!(updated, 1);
    assert_eq!(st.count_fragments_without_embeddings().unwrap(), 1);
    assert_eq!(st.frags[0].embedding, None);
    assert_eq!(st.frags[1].embedding, Some(vec![4u64, 5, 6]));
}
