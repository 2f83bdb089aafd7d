//! The document processor: per-format text extraction under size limits,
//! normalization, and sentence-aware chunking with overlap.

use vstd::prelude::*;
use crate::chars::chars_of;
use crate::chars::string_of;
use crate::chars::take_chars;
use crate::chars::take_chars_spec;
use crate::errors::PortableBrainsError;
use crate::format::DocumentFormat;
use crate::normalize::normalize_spec;
use crate::normalize::normalize_chars;
use crate::sentences::sentences_spec;
use crate::sentences::split_sentences;
use crate::sentences::lemma_sentences_shape;
use crate::chars::lemma_deep_push_str;
use crate::chunk::chunks_spec;
use crate::chunk::chunk_sentences;
use crate::chunk::lemma_chunks_min_len;

verus! {

/// What a raw extracted text becomes after the common finishing steps:
/// normalization followed by truncation to the character ceiling.
pub open spec fn finished_text(raw: Seq<char>, max_text_length: int) -> Seq<char> {
    take_chars_spec(normalize_spec(raw), max_text_length)
}

/// Drives extraction and chunking.  The limits bound the accepted input
/// size in bytes and the kept text length in characters.
pub struct DocumentProcessor {
    pub chunk_size: usize,
    pub overlap: usize,
    pub max_file_size: usize,
    pub max_text_length: usize,
}

impl DocumentProcessor {
    /// A processor with the default limits.
    pub fn new() -> (r: DocumentProcessor)
        ensures
            r.chunk_size == 512,
            r.overlap == 50,
            r.max_file_size == 104857600,
            r.max_text_length == 10000000,
    {
        DocumentProcessor {
            chunk_size: 512,
            overlap: 50,
            max_file_size: 104857600,  // 100 MiB
            max_text_length: 10000000,  // ten million characters
        }
    }

    /// A processor with explicit limits.
    pub fn with_limits(
        chunk_size: usize,
        overlap: usize,
        max_file_size: usize,
        max_text_length: usize,
    ) -> (r: DocumentProcessor)
        ensures
            r.chunk_size == chunk_size,
            r.overlap == overlap,
            r.max_file_size == max_file_size,
            r.max_text_length == max_text_length,
    {
        DocumentProcessor { chunk_size, overlap, max_file_size, max_text_length }
    }

    /// Normalize extracted text: collapse whitespace runs, drop
    /// non-whitespace control characters, trim lines, drop empty lines,
    /// and canonicalize paragraph breaks to one blank line.
    pub fn cleanup_text(&self, text: &str) -> (r: String)
        ensures
            r@ == normalize_spec(text@),
    {
        crate::normalize::normalize_text(text)
    }

    /// Split a text into sentences.
    pub fn split_into_sentences(&self, text: &str) -> (r: Vec<String>)
        ensures
            r.deep_view() == sentences_spec(text@),
    {
        crate::sentences::split_sentences_str(text)
    }

    /// Chunk a text into fragments: sentences are packed greedily up to
    /// the chunk size, each fragment after the first is seeded with whole
    /// trailing sentences of the previous content within the overlap
    /// budget, and every emitted fragment is longer than ten characters.
    /// Chunking never fails; empty input yields no fragments.
    pub fn chunk_text(&self, text: &str) -> (r: Result<Vec<String>, PortableBrainsError>)
        ensures
            r is Ok,
            r->Ok_0.deep_view() == chunks_spec(
                sentences_spec(text@),
                self.chunk_size as int,
                self.overlap as int,
            ),
            forall|k: int|
                0 <= k < r->Ok_0.deep_view().len() ==> #[trigger] r->Ok_0.deep_view()[k].len()
                    > 10,
            forall|k: int|
                0 <= k < r->Ok_0.deep_view().len() ==> #[trigger] r->Ok_0.deep_view()[k].len()
                    <= vstd::math::max(
                    self.chunk_size as int,
                    self.overlap + crate::chunk::max_sent_len(sentences_spec(text@)),
                ),
            text@.len() == 0 ==> r->Ok_0.deep_view().len() == 0,
    {
        let v = chars_of(text);
        let sents = split_sentences(&v);
        proof {
            lemma_sentences_shape(text@);
            assert(forall|t: int|
                0 <= t < sents.deep_view().len() ==> #[trigger] sents.deep_view()[t].len() > 0);
            lemma_chunks_min_len(
                sents.deep_view(),
                self.chunk_size as int,
                self.overlap as int,
            );
            crate::chunk::lemma_chunks_max_len(
                sents.deep_view(),
                self.chunk_size as int,
                self.overlap as int,
            );
            if text@.len() == 0 {
                assert(text@ =~= Seq::<char>::empty());
                crate::sentences::lemma_sentences_empty();
            }
        }
        let parts = chunk_sentences(&sents, self.chunk_size, self.overlap);
        let mut out: Vec<String> = Vec::new();
        let mut i: usize = 0;
        while i < parts.len()
            invariant
                i <= parts@.len(),
                out.deep_view() == parts.deep_view().take(i as int),
            decreases parts@.len() - i,
        {
            proof {
                assert(parts.deep_view()[i as int] == parts@[i as int]@) by {
                    assert(parts.deep_view()[i as int] =~= parts@[i as int]@);
                }
            }
            let s = string_of(&parts[i]);
            let ghost out_pre = out;
            out.push(s);
            i = i + 1;
            proof {
                lemma_deep_push_str(out_pre, out, out@.last());
                assert(out.deep_view() =~= parts.deep_view().take(i as int));
            }
        }
        proof {
            assert(parts.deep_view().take(parts@.len() as int) =~= parts.deep_view());
        }
        Ok(out)
    }

    /// The finishing steps shared by every extractor: normalize, truncate
    /// to the character ceiling, and fail when nothing is left.
    pub(crate) fn finish_text(&self, raw: &Vec<char>) -> (r: Result<
        String,
        PortableBrainsError,
    >)
        ensures
            match r {
                Ok(s) => s@ == finished_text(raw@, self.max_text_length as int) && s@.len() > 0,
                Err(e) => e == PortableBrainsError::EmptyResult && finished_text(
                    raw@,
                    self.max_text_length as int,
                ).len() == 0,
            },
    {
        let n = normalize_chars(raw);
        let t = take_chars(&n, self.max_text_length);
        if t.len() == 0 {
            Err(PortableBrainsError::EmptyResult)
        } else {
            Ok(string_of(&t))
        }
    }
}

/// What decoding a byte payload as UTF-8 with lossy replacement yields.
/// The result depends on the bytes alone.
pub uninterp spec fn utf8_lossy_of(bytes: Seq<u8>) -> Seq<char>;

/// Relies on std's String::from_utf8_lossy: decodes UTF-8, replacing
/// invalid sequences with the replacement character; valid UTF-8 (hence
/// any ASCII input) decodes to itself.
#[verifier::external_body]
pub(crate) fn decode_utf8_lossy(data: &[u8]) -> (r: String)
    ensures
        r@ == utf8_lossy_of(data@),
        (forall|i: int| 0 <= i < data@.len() ==> data@[i] < 0x80) ==> r@ == data@.map_values(
            |b: u8| b as char,
        ),
        data@.len() == 0 ==> r@.len() == 0,
{
    String::from_utf8_lossy(data).to_string()
}

/// What plain-text extraction returns for a payload within the size
/// limit.
pub open spec fn text_post(p: DocumentProcessor, data: Seq<u8>, r: Result<
    String,
    PortableBrainsError,
>) -> bool {
    match r {
        Ok(s) => s@ == finished_text(utf8_lossy_of(data), p.max_text_length as int) && s@.len()
            > 0,
        Err(e) => e == PortableBrainsError::EmptyResult && finished_text(
            utf8_lossy_of(data),
            p.max_text_length as int,
        ).len() == 0,
    }
}

/// Which format the path's extension selects, if any.
pub open spec fn spec_format_of(path: Seq<char>) -> Option<DocumentFormat> {
    match crate::format::spec_extension_of(path) {
        Some(e) => crate::format::spec_from_extension(e),
        None => None,
    }
}

/// The text that extraction yields for this path and payload whenever it
/// succeeds: the chosen format's raw text, normalized and truncated.
pub open spec fn spec_extracted_text(
    p: DocumentProcessor,
    path: Seq<char>,
    data: Seq<u8>,
) -> Seq<char> {
    match spec_format_of(path) {
        Some(DocumentFormat::Pdf) => match crate::pdf::pdf_page_count_of(data) {
            Some(n) => finished_text(
                crate::pdf::pdf_raw_text(data, n, p.max_text_length as int),
                p.max_text_length as int,
            ),
            None => Seq::empty(),
        },
        Some(DocumentFormat::Text) => finished_text(
            utf8_lossy_of(data),
            p.max_text_length as int,
        ),
        Some(DocumentFormat::Html) => finished_text(
            crate::html::html_raw_text(utf8_lossy_of(data)),
            p.max_text_length as int,
        ),
        Some(DocumentFormat::Docx) => match crate::office::zip_text_by_name_of(
            data,
            "word/document.xml"@,
        ) {
            Some(x) => finished_text(
                crate::office::docx_fold(crate::office::xml_stream_of(x)),
                p.max_text_length as int,
            ),
            None => Seq::empty(),
        },
        Some(DocumentFormat::Pptx) => match crate::office::zip_entry_count_of(data) {
            Some(n) => match crate::office::pptx_collect(data, 0, n) {
                Some(slides) => finished_text(slides, p.max_text_length as int),
                None => Seq::empty(),
            },
            None => Seq::empty(),
        },
        Some(DocumentFormat::Xlsx) => match crate::sheet::xlsx_sheet_names_of(data) {
            Some(names) => finished_text(
                crate::sheet::sheets_text(data, names),
                p.max_text_length as int,
            ),
            None => Seq::empty(),
        },
        None => Seq::empty(),
    }
}

impl DocumentProcessor {
    /// Extract text from a plain-text payload: decode as UTF-8 with lossy
    /// replacement, normalize, and truncate to the character ceiling.
    pub fn extract_text_from_text(&self, file_data: &[u8]) -> (r: Result<
        String,
        PortableBrainsError,
    >)
        ensures
            file_data@.len() > self.max_file_size ==> r == Err::<String, PortableBrainsError>(
                PortableBrainsError::SizeLimitExceeded {
                    size: file_data@.len() as usize,
                    limit: self.max_file_size,
                },
            ),
            file_data@.len() <= self.max_file_size ==> text_post(*self, file_data@, r),
    {
        if file_data.len() > self.max_file_size {
            return Err(
                PortableBrainsError::SizeLimitExceeded {
                    size: file_data.len(),
                    limit: self.max_file_size,
                },
            );
        }
        let decoded = decode_utf8_lossy(file_data);
        let v = chars_of(decoded.as_str());
        self.finish_text(&v)
    }

    /// Extract text from any supported document format, dispatching on
    /// the path's extension.  The result is the chosen format's
    /// extractor's result: oversized payloads are rejected before any
    /// parsing, and extracted-but-empty text is a hard error.
    pub fn extract_text_from_document(&self, file_path: &str, file_data: &[u8]) -> (r: Result<
        String,
        PortableBrainsError,
    >)
        ensures
            file_data@.len() > self.max_file_size ==> r == Err::<String, PortableBrainsError>(
                PortableBrainsError::SizeLimitExceeded {
                    size: file_data@.len() as usize,
                    limit: self.max_file_size,
                },
            ),
            file_data@.len() <= self.max_file_size ==> match spec_format_of(file_path@) {
                None => r matches Err(e) && (e matches PortableBrainsError::ExtractionFailed {
                    format,
                    cause,
                } && format is None && cause@ == "unsupported file format"@),
                Some(DocumentFormat::Pdf) => crate::pdf::pdf_post(*self, file_data@, r),
                Some(DocumentFormat::Text) => text_post(*self, file_data@, r),
                Some(DocumentFormat::Html) => crate::html::html_post(*self, file_data@, r),
                Some(DocumentFormat::Docx) => crate::office::docx_post(*self, file_data@, r),
                Some(DocumentFormat::Pptx) => crate::office::pptx_post(*self, file_data@, r),
                Some(DocumentFormat::Xlsx) => crate::sheet::xlsx_post(*self, file_data@, r),
            },
            r matches Ok(s) ==> s@ == spec_extracted_text(*self, file_path@, file_data@)
                && s@.len() > 0,
    {
        if file_data.len() > self.max_file_size {
            return Err(
                PortableBrainsError::SizeLimitExceeded {
                    size: file_data.len(),
                    limit: self.max_file_size,
                },
            );
        }
        let format = match crate::format::extension_of(file_path) {
            Some(e) => crate::format::DocumentFormat::from_extension(e.as_str()),
            None => None,
        };
        proof {
            assert(format == spec_format_of(file_path@));
        }
        match format {
            Some(crate::format::DocumentFormat::Pdf) => self.extract_text_from_pdf(file_data),
            Some(crate::format::DocumentFormat::Text) => self.extract_text_from_text(file_data),
            Some(crate::format::DocumentFormat::Html) => self.extract_text_from_html(file_data),
            Some(crate::format::DocumentFormat::Docx) => self.extract_text_from_docx(file_data),
            Some(crate::format::DocumentFormat::Pptx) => self.extract_text_from_pptx(file_data),
            Some(crate::format::DocumentFormat::Xlsx) => self.extract_text_from_xlsx(file_data),
            None => Err(
                PortableBrainsError::ExtractionFailed {
                    format: None,
                    cause: String::from_str("unsupported file format"),
                },
            ),
        }
    }
}

} // verus!
