//! HTML text extraction.
//!
//! The document is parsed as a DOM; the text of the body element is
//! preferred, falling back to the text of the whole document when no body
//! is present.  Content of script or style elements inside the body is
//! not filtered out.
//!
//! Parsing is deterministic, so the text nodes the DOM yields are named
//! results of the source text alone; the extractor's contract is exact
//! over those names.

use vstd::prelude::*;
use crate::chars::chars_of;
use crate::errors::PortableBrainsError;
use crate::normalize::join_with;
use crate::processor::DocumentProcessor;
use crate::processor::decode_utf8_lossy;
use crate::processor::finished_text;
use crate::processor::utf8_lossy_of;

verus! {

/// The text nodes under the body element of the document parsed from the
/// source text, in document order; absent when the parsed document has no
/// body element.  The result depends on the source text alone.
pub uninterp spec fn html_body_texts_of(s: Seq<char>) -> Option<Seq<Seq<char>>>;

/// The text nodes of the whole parsed document, in document order.  The
/// result depends on the source text alone.
pub uninterp spec fn html_all_texts_of(s: Seq<char>) -> Seq<Seq<char>>;

/// Relies on scraper's Html::parse_document, Selector::parse ("body",
/// which always compiles) and ElementRef::text: the text nodes under the
/// first body element, or nothing when no body element exists.  Parsing
/// never fails and is a function of the source text.
#[verifier::external_body]
fn html_body_texts(content: &str) -> (r: Option<Vec<String>>)
    ensures
        match r {
            Some(v) => html_body_texts_of(content@) == Some(v.deep_view()),
            None => html_body_texts_of(content@) is None,
        },
{
    let document = scraper::Html::parse_document(content);
    let selector = scraper::Selector::parse("body").ok()?;
    let body = document.select(&selector).next()?;
    Some(body.text().map(String::from).collect())
}

/// Relies on scraper's Html::parse_document, Html::root_element and
/// ElementRef::text: the text nodes of the whole document.
#[verifier::external_body]
fn html_all_texts(content: &str) -> (r: Vec<String>)
    ensures
        r.deep_view() == html_all_texts_of(content@),
{
    let document = scraper::Html::parse_document(content);
    document.root_element().text().map(String::from).collect()
}

/// Join text nodes with single spaces, as the DOM walk separates them.
pub(crate) fn join_texts(parts: &Vec<String>) -> (out: Vec<char>)
    ensures
        out@ == join_with(seq![' '], parts.deep_view()),
{
    let mut out: Vec<char> = Vec::new();
    let mut k: usize = 0;
    while k < parts.len()
        invariant
            k <= parts@.len(),
            out@ == join_with(seq![' '], parts.deep_view().take(k as int)),
        decreases parts@.len() - k,
    {
        proof {
            assert(parts.deep_view().take(k + 1).drop_last() =~= parts.deep_view().take(
                k as int,
            ));
            assert(parts.deep_view().take(k + 1).last() == parts.deep_view()[k as int]);
            assert(parts.deep_view()[k as int] == parts@[k as int]@);
        }
        if k > 0 {
            out.push(' ');
        } else {
            proof {
                assert(join_with(seq![' '], parts.deep_view().take(1)) == parts.deep_view()[0]);
            }
        }
        let ghost mid = out@;
        let part = chars_of(parts[k].as_str());
        let mut t: usize = 0;
        while t < part.len()
            invariant
                t <= part@.len(),
                out@ == mid + part@.take(t as int),
            decreases part@.len() - t,
        {
            out.push(part[t]);
            t = t + 1;
            proof {
                assert(out@ =~= mid + part@.take(t as int));
            }
        }
        proof {
            assert(part@.take(part@.len() as int) =~= part@);
            assert(out@ =~= join_with(seq![' '], parts.deep_view().take(k + 1)));
        }
        k = k + 1;
    }
    proof {
        assert(parts.deep_view().take(parts@.len() as int) =~= parts.deep_view());
    }
    out
}

/// The raw text an HTML source yields: its body's text nodes joined by
/// single spaces when a body element exists, else the whole document's.
pub open spec fn html_raw_text(s: Seq<char>) -> Seq<char> {
    match html_body_texts_of(s) {
        Some(ts) => join_with(seq![' '], ts),
        None => join_with(seq![' '], html_all_texts_of(s)),
    }
}

/// What HTML extraction returns for a payload within the size limit.
pub open spec fn html_post(p: DocumentProcessor, data: Seq<u8>, r: Result<
    String,
    PortableBrainsError,
>) -> bool {
    match r {
        Ok(s) => s@ == finished_text(
            html_raw_text(utf8_lossy_of(data)),
            p.max_text_length as int,
        ) && s@.len() > 0,
        Err(e) => e == PortableBrainsError::EmptyResult && finished_text(
            html_raw_text(utf8_lossy_of(data)),
            p.max_text_length as int,
        ).len() == 0,
    }
}

impl DocumentProcessor {
    /// Extract text from an HTML payload: the body's text if a body
    /// element exists, else the whole document's text, normalized and
    /// truncated to the character ceiling.
    pub fn extract_text_from_html(&self, file_data: &[u8]) -> (r: Result<
        String,
        PortableBrainsError,
    >)
        ensures
            file_data@.len() > self.max_file_size ==> r == Err::<String, PortableBrainsError>(
                PortableBrainsError::SizeLimitExceeded {
                    size: file_data@.len() as usize,
                    limit: self.max_file_size,
                },
            ),
            file_data@.len() <= self.max_file_size ==> html_post(*self, file_data@, r),
    {
        if file_data.len() > self.max_file_size {
            return Err(
                PortableBrainsError::SizeLimitExceeded {
                    size: file_data.len(),
                    limit: self.max_file_size,
                },
            );
        }
        let content = decode_utf8_lossy(file_data);
        let text = match html_body_texts(content.as_str()) {
            Some(parts) => join_texts(&parts),
            None => join_texts(&html_all_texts(content.as_str())),
        };
        self.finish_text(&text)
    }
}

} // verus!
