//! PDF text extraction.
//!
//! Pages are extracted in ascending order; a page whose text cannot be
//! extracted is skipped.  Accumulation stops at the character ceiling,
//! appending only the fitting prefix of the page that crosses it.
//!
//! Parsing is deterministic, so the page count and each page's text are
//! named results of the byte payload alone; the extractor's contract is
//! exact over those names.

use vstd::prelude::*;
use crate::chars::chars_of;
use crate::errors::PortableBrainsError;
use crate::format::DocumentFormat;
use crate::processor::DocumentProcessor;
use crate::processor::finished_text;

verus! {

#[verifier::external_type_specification]
#[verifier::external_body]
pub struct ExLopdfError(lopdf::Error);

/// How many pages the PDF parsed from the payload has; absent when the
/// payload does not parse.  The result depends on the bytes alone.
pub uninterp spec fn pdf_page_count_of(data: Seq<u8>) -> Option<int>;

/// The text of one page (1-based, in page-tree order) of the PDF parsed
/// from the payload; absent when the payload does not parse or the
/// page's text cannot be extracted.  The result depends on the bytes and
/// the page number alone.
pub uninterp spec fn pdf_page_text_of(data: Seq<u8>, page: int) -> Option<Seq<char>>;

/// Relies on lopdf's Document::load_mem and Document::get_pages: the
/// size of the parsed page tree, or the parse error.
#[verifier::external_body]
fn pdf_page_count(data: &[u8]) -> (r: Result<usize, lopdf::Error>)
    ensures
        r matches Ok(n) ==> pdf_page_count_of(data@) == Some(n as int),
        r is Err ==> pdf_page_count_of(data@) is None,
{
    match lopdf::Document::load_mem(data) {
        Ok(d) => Ok(d.get_pages().len()),
        Err(e) => Err(e),
    }
}

/// Relies on lopdf's Document::load_mem and Document::extract_text for
/// one page.  The payload is reparsed on each call so that the result is
/// a function of the bytes and the page number alone.
#[verifier::external_body]
fn pdf_page_text(data: &[u8], page: usize) -> (r: Option<String>)
    ensures
        match r {
            Some(t) => pdf_page_text_of(data@, page as int) == Some(t@),
            None => pdf_page_text_of(data@, page as int) is None,
        },
{
    let document = lopdf::Document::load_mem(data).ok()?;
    document.extract_text(&[page as u32]).ok()
}

/// Relies on the Display rendering of lopdf's error type.
#[verifier::external_body]
fn lopdf_error_text(e: &lopdf::Error) -> (r: String) {
    e.to_string()
}

/// The page accumulation, from page `p` with `acc` already gathered:
/// skip unreadable pages, append each page's text and a newline while it
/// fits, append only the fitting prefix of the page that would cross the
/// ceiling, and stop there.
pub open spec fn pdf_step(data: Seq<u8>, p: int, n: int, max: int, acc: Seq<char>) -> Seq<char>
    decreases n + 1 - p,
{
    if p > n {
        acc
    } else if acc.len() > max {
        acc
    } else {
        match pdf_page_text_of(data, p) {
            None => pdf_step(data, p + 1, n, max, acc),
            Some(t) => if t.len() <= max - acc.len() {
                let grown = acc + t;
                let grown2 = if grown.len() <= max {
                    grown.push('\n')
                } else {
                    grown
                };
                pdf_step(data, p + 1, n, max, grown2)
            } else {
                acc + t.take(max - acc.len())
            },
        }
    }
}

/// The raw text a parsed PDF of `n` pages yields under the ceiling.
pub open spec fn pdf_raw_text(data: Seq<u8>, n: int, max: int) -> Seq<char> {
    pdf_step(data, 1, n, max, Seq::empty())
}

/// What PDF extraction returns for a payload within the size limit.
pub open spec fn pdf_post(p: DocumentProcessor, data: Seq<u8>, r: Result<
    String,
    PortableBrainsError,
>) -> bool {
    match pdf_page_count_of(data) {
        None => r matches Err(e) && (e matches PortableBrainsError::ExtractionFailed {
            format: Some(DocumentFormat::Pdf),
            ..
        }),
        Some(n) => match r {
            Ok(s) => s@ == finished_text(
                pdf_raw_text(data, n, p.max_text_length as int),
                p.max_text_length as int,
            ) && s@.len() > 0,
            Err(e) => e == PortableBrainsError::EmptyResult && finished_text(
                pdf_raw_text(data, n, p.max_text_length as int),
                p.max_text_length as int,
            ).len() == 0,
        },
    }
}

impl DocumentProcessor {
    /// Extract text from a PDF payload, page by page in ascending order,
    /// under the size and text-length ceilings.
    pub fn extract_text_from_pdf(&self, pdf_data: &[u8]) -> (r: Result<
        String,
        PortableBrainsError,
    >)
        ensures
            pdf_data@.len() > self.max_file_size ==> r == Err::<String, PortableBrainsError>(
                PortableBrainsError::SizeLimitExceeded {
                    size: pdf_data@.len() as usize,
                    limit: self.max_file_size,
                },
            ),
            pdf_data@.len() <= self.max_file_size ==> pdf_post(*self, pdf_data@, r),
    {
        if pdf_data.len() > self.max_file_size {
            return Err(
                PortableBrainsError::SizeLimitExceeded {
                    size: pdf_data.len(),
                    limit: self.max_file_size,
                },
            );
        }
        let page_count = match pdf_page_count(pdf_data) {
            Ok(n) => n,
            Err(e) => {
                return Err(
                    PortableBrainsError::ExtractionFailed {
                        format: Some(DocumentFormat::Pdf),
                        cause: lopdf_error_text(&e),
                    },
                );
            },
        };
        let ghost m = self.max_text_length as int;
        let ghost target = pdf_raw_text(pdf_data@, page_count as int, m);
        let mut acc: Vec<char> = Vec::new();
        let mut page0: usize = 0;
        while page0 < page_count
            invariant_except_break
                page0 <= page_count,
                acc@.len() <= self.max_text_length + 1,
                pdf_step(pdf_data@, page0 + 1, page_count as int, m, acc@) == target,
                m == self.max_text_length as int,
                target == pdf_raw_text(pdf_data@, page_count as int, m),
            ensures
                acc@ == target,
            decreases page_count - page0,
        {
            // stop once the ceiling has been reached
            if acc.len() > self.max_text_length {
                proof {
                    assert(pdf_step(pdf_data@, page0 + 1, page_count as int, m, acc@) == acc@);
                }
                break;
            }
            match pdf_page_text(pdf_data, page0 + 1) {
                Some(page_text) => {
                    let pchars = chars_of(page_text.as_str());
                    let ghost base = acc@;
                    if pchars.len() <= self.max_text_length - acc.len() {
                        // the whole page fits
                        let mut t: usize = 0;
                        while t < pchars.len()
                            invariant
                                t <= pchars@.len(),
                                acc@ == base + pchars@.take(t as int),
                                base.len() + pchars@.len() <= self.max_text_length,
                            decreases pchars@.len() - t,
                        {
                            acc.push(pchars[t]);
                            t = t + 1;
                            proof {
                                assert(acc@ =~= base + pchars@.take(t as int));
                            }
                        }
                        proof {
                            assert(pchars@.take(pchars@.len() as int) =~= pchars@);
                            assert(acc@ == base + page_text@);
                        }
                        if acc.len() <= self.max_text_length {
                            acc.push('\n');
                        }
                        proof {
                            assert(pdf_step(pdf_data@, page0 + 1, page_count as int, m, base)
                                == pdf_step(pdf_data@, page0 + 2, page_count as int, m, acc@));
                        }
                    } else {
                        // append only the prefix that fits, then stop
                        let room: usize = self.max_text_length - acc.len();
                        let mut t: usize = 0;
                        while t < room
                            invariant
                                t <= room,
                                room <= pchars@.len(),
                                acc@ == base + pchars@.take(t as int),
                                base.len() + room <= self.max_text_length,
                            decreases room - t,
                        {
                            acc.push(pchars[t]);
                            t = t + 1;
                            proof {
                                assert(acc@ =~= base + pchars@.take(t as int));
                            }
                        }
                        proof {
                            assert(pdf_step(pdf_data@, page0 + 1, page_count as int, m, base)
                                == base + page_text@.take(m - base.len()));
                            assert(acc@ == base + page_text@.take(m - base.len()));
                        }
                        break;
                    }
                },
                None => {
                    proof {
                        assert(pdf_step(pdf_data@, page0 + 1, page_count as int, m, acc@)
                            == pdf_step(pdf_data@, page0 + 2, page_count as int, m, acc@));
                    }
                },
            }
            page0 = page0 + 1;
        }
        self.finish_text(&acc)
    }
}

} // verus!
