use portable_brains::processor::DocumentProcessor;
use portable_brains::format::DocumentFormat;
use portable_brains::errors::PortableBrainsError;

#[test]
fn test_text_cleanup() {
    let processor = DocumentProcessor::new();
    let messy_text = "This   is    a\n\n\ntest    text\twith\nexcessive\n\n   whitespace.";
    let cleaned = processor.cleanup_text(messy_text);

    assert_eq!(cleaned, "This is a\n\ntest text with\n\nexcessive\n\nwhitespace.");
}

#[test]
fn test_text_chunking() {
    let processor = DocumentProcessor::new();
    let text = "This is a test document. It has multiple sentences. ".repeat(20);
    let chunks = processor.chunk_text(&text).unwrap();

    assert!(!chunks.is_empty());

    // Check that chunks have reasonable length
    for chunk in &chunks {
        assert!(chunk.len() <= 600); // Should be around 512 + some extra
        assert!(chunk.len() >= 10); // Should filter out very short chunks
    }
}

#[test]
fn normalizer_is_idempotent_on_messy_input() {
    let processor = DocumentProcessor::new();
    let messy = "  a\u{0001}b   c\t\td \n\n\n e\u{000B}f  \n g  ";
    let once = processor.cleanup_text(messy);
    let twice = processor.cleanup_text(&once);
    assert_eq!(once, twice);
}

#[test]
fn chunking_empty_input_yields_no_fragments() {
    let processor = DocumentProcessor::new();
    let chunks = processor.chunk_text("").unwrap();
    assert!(chunks.is_empty());
}

#[test]
fn every_fragment_is_longer_than_ten_characters() {
    let processor = DocumentProcessor::with_limits(25, 8, 1024, 1024);
    let text = "Alpha beta gamma. Delta epsilon zeta. Eta theta iota. Kappa lambda mu.";
    let chunks = processor.chunk_text(text).unwrap();
    assert!(!chunks.is_empty());
    for chunk in &chunks {
        assert!(chunk.chars().count() > 10);
    }
}

#[test]
fn three_sentences_with_tight_target_keep_cores_in_order() {
    // target 20 characters, overlap budget 5: no whole sentence fits the
    // overlap, so the cores reconstruct the input exactly
    let processor = DocumentProcessor::with_limits(20, 5, 4096, 4096);
    let text = "Alpha beta gamma. Delta epsilon zeta. Eta theta iota.";
    let chunks = processor.chunk_text(text).unwrap();
    assert_eq!(
        chunks,
        vec![
            "Alpha beta gamma.".to_string(),
            "Delta epsilon zeta.".to_string(),
            "Eta theta iota.".to_string(),
        ]
    );
}

#[test]
fn overlap_prefix_is_a_suffix_of_the_previous_fragment() {
    let processor = DocumentProcessor::with_limits(30, 15, 4096, 4096);
    let text = "Aaaa bbb cc. Dddd eee ff. Gggg hhh ii.";
    let chunks = processor.chunk_text(text).unwrap();
    assert_eq!(
        chunks,
        vec![
            "Aaaa bbb cc. Dddd eee ff.".to_string(),
            "Dddd eee ff. Gggg hhh ii.".to_string(),
        ]
    );
    // the injected prefix of the later fragment (one whole sentence,
    // within the 15-character budget) ends the earlier fragment
    assert!(chunks[0].ends_with("Dddd eee ff."));
    assert!(chunks[1].starts_with("Dddd eee ff."));
}

#[test]
fn sentences_split_at_uppercase_after_stop() {
    let processor = DocumentProcessor::new();
    let sentences = processor.split_into_sentences("Hello there.Big day ahead.");
    assert_eq!(
        sentences,
        vec!["Hello there.".to_string(), "Big day ahead.".to_string()]
    );
}

#[test]
fn short_sentence_candidates_are_discarded() {
    let processor = DocumentProcessor::new();
    // "Dr." is a candidate at the stop before a space, but its trimmed
    // length does not exceed five characters, so it is dropped
    let sentences = processor.split_into_sentences("Dr. Smith came over.");
    assert_eq!(sentences, vec!["Smith came over.".to_string()]);
}

#[test]
fn plain_text_extraction_normalizes_and_keeps_ascii() {
    let processor = DocumentProcessor::new();
    let text = processor
        .extract_text_from_text(b"Hello   plain\n\n\nworld.")
        .unwrap();
    assert_eq!(text, "Hello plain\n\nworld.");
}

#[test]
fn invalid_utf8_is_replaced_not_rejected() {
    let processor = DocumentProcessor::new();
    let text = processor.extract_text_from_text(&[0x66, 0xFF, 0x6F]).unwrap();
    assert_eq!(text, "f\u{FFFD}o");
}

#[test]
fn whitespace_only_text_is_an_empty_result() {
    let processor = DocumentProcessor::new();
    let r = processor.extract_text_from_text(b"  \t \n  ");
    assert!(matches!(r, Err(PortableBrainsError::EmptyResult)));
}

#[test]
fn oversized_corrupt_payload_fails_with_size_limit_before_parsing() {
    // five corrupt bytes against a four-byte ceiling: every extractor
    // must report the size limit, not a parse failure
    let processor = DocumentProcessor::with_limits(800, 100, 4, 1000);
    let data: &[u8] = &[0xDE, 0xAD, 0xBE, 0xEF, 0xFF];
    for r in [
        processor.extract_text_from_pdf(data),
        processor.extract_text_from_text(data),
        processor.extract_text_from_html(data),
        processor.extract_text_from_docx(data),
        processor.extract_text_from_pptx(data),
        processor.extract_text_from_xlsx(data),
        processor.extract_text_from_document("x.pdf", data),
    ] {
        match r {
            Err(PortableBrainsError::SizeLimitExceeded { size, limit }) => {
                assert_eq!(size, 5);
                assert_eq!(limit, 4);
            }
            other => panic!("expected a size limit error, got {:?}", other),
        }
    }
}

#[test]
fn truncation_caps_extracted_text_at_the_character_ceiling() {
    let processor = DocumentProcessor::with_limits(800, 100, 1024, 7);
    let text = processor
        .extract_text_from_text(b"abcdefghijklmnop")
        .unwrap();
    assert_eq!(text, "abcdefg");
}

#[test]
fn unsupported_extension_is_rejected_by_the_dispatch() {
    let processor = DocumentProcessor::new();
    let r = processor.extract_text_from_document("notes.md", b"some text here");
    assert!(matches!(
        r,
        Err(PortableBrainsError::ExtractionFailed { format: None, .. })
    ));
}

#[test]
fn format_classifier_ignores_ascii_case() {
    assert_eq!(DocumentFormat::from_extension("pdf"), Some(DocumentFormat::Pdf));
    assert_eq!(DocumentFormat::from_extension("PDF"), Some(DocumentFormat::Pdf));
    assert_eq!(DocumentFormat::from_extension("Txt"), Some(DocumentFormat::Text));
    assert_eq!(DocumentFormat::from_extension("text"), Some(DocumentFormat::Text));
    assert_eq!(DocumentFormat::from_extension("HTML"), Some(DocumentFormat::Html));
    assert_eq!(DocumentFormat::from_extension("htm"), Some(DocumentFormat::Html));
    assert_eq!(DocumentFormat::from_extension("docx"), Some(DocumentFormat::Docx));
    assert_eq!(DocumentFormat::from_extension("pptx"), Some(DocumentFormat::Pptx));
    assert_eq!(DocumentFormat::from_extension("xlsx"), Some(DocumentFormat::Xlsx));
    assert_eq!(DocumentFormat::from_extension("exe"), None);
    assert_eq!(DocumentFormat::from_extension(""), None);
}

#[test]
fn each_format_reports_its_extensions() {
    assert_eq!(DocumentFormat::Pdf.extensions(), ["pdf"]);
    assert_eq!(DocumentFormat::Text.extensions(), ["txt", "text"]);
    assert_eq!(DocumentFormat::Html.extensions(), ["html", "htm"]);
    assert_eq!(DocumentFormat::Docx.extensions(), ["docx"]);
    assert_eq!(DocumentFormat::Pptx.extensions(), ["pptx"]);
    assert_eq!(DocumentFormat::Xlsx.extensions(), ["xlsx"]);
}

#[test]
fn error_messages_are_nonempty() {
    let errors = vec![
        PortableBrainsError::SizeLimitExceeded { size: 9, limit: 4 },
        PortableBrainsError::ExtractionFailed {
            format: Some(DocumentFormat::Pdf),
            cause: "bad xref".to_string(),
        },
        PortableBrainsError::EmptyResult,
        PortableBrainsError::ChunkingFailed { cause: "none".to_string() },
        PortableBrainsError::StorageError { cause: "closed".to_string() },
        PortableBrainsError::ModelMismatch {
            expected: "m1".to_string(),
            found: "m2".to_string(),
        },
        PortableBrainsError::CountMismatch { expected: 2, got: 1 },
    ];
    for e in &errors {
        assert!(!e.message().is_empty());
    }
}
