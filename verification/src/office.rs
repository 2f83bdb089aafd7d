//! Word and PowerPoint text extraction.
//!
//! Both formats are ZIP archives of XML parts.  The Word extractor reads
//! the single main document part and keeps every text node, separated by
//! spaces.  The PowerPoint extractor walks every archive entry whose name
//! matches the slide pattern (in archive iteration order) and keeps text
//! strictly inside run-text elements, one line per slide.
//!
//! Archive reading and XML lexing are deterministic: entry names and
//! contents are named results of the byte payload, and a parser's token
//! sequence is a named result of its input text.  The scans over those
//! tokens are the library's own logic, verified against them.

use vstd::prelude::*;
use crate::chars::chars_of;
use crate::errors::PortableBrainsError;
use crate::format::DocumentFormat;
use crate::processor::DocumentProcessor;
use crate::processor::finished_text;

verus! {

#[verifier::external_type_specification]
#[verifier::external_body]
#[verifier::reject_recursive_types(R)]
pub struct ExXmlReader<R>(quick_xml::Reader<R>);

// ---------------------------------------------------------------------------
// Archive entries as named results of the payload
// ---------------------------------------------------------------------------

/// How many entries the archive parsed from the payload has; absent when
/// the payload is not a readable archive.
pub uninterp spec fn zip_entry_count_of(data: Seq<u8>) -> Option<int>;

/// The stored name of entry `i` of the archive parsed from the payload.
pub uninterp spec fn zip_name_at_of(data: Seq<u8>, i: int) -> Option<Seq<char>>;

/// The decompressed content of entry `i` as UTF-8 text; absent when the
/// archive, the entry or its encoding cannot be read.
pub uninterp spec fn zip_text_at_of(data: Seq<u8>, i: int) -> Option<Seq<char>>;

/// The decompressed content of the entry with the given name as UTF-8
/// text; absent when the archive, the entry or its encoding cannot be
/// read.
pub uninterp spec fn zip_text_by_name_of(data: Seq<u8>, name: Seq<char>) -> Option<Seq<char>>;

/// Relies on zip's ZipArchive::new and ZipArchive::len.  The payload is
/// reparsed on each call so that the result is a function of the bytes
/// alone.
#[verifier::external_body]
fn zip_entry_count(data: &[u8]) -> (r: Option<usize>)
    ensures
        match r {
            Some(n) => zip_entry_count_of(data@) == Some(n as int),
            None => zip_entry_count_of(data@) is None,
        },
{
    Some(zip::ZipArchive::new(std::io::Cursor::new(data)).ok()?.len())
}

/// Relies on zip's ZipArchive::new and ZipArchive::name_for_index.
#[verifier::external_body]
fn zip_entry_name_at(data: &[u8], i: usize) -> (r: Option<String>)
    ensures
        match r {
            Some(n) => zip_name_at_of(data@, i as int) == Some(n@),
            None => zip_name_at_of(data@, i as int) is None,
        },
{
    let archive = zip::ZipArchive::new(std::io::Cursor::new(data)).ok()?;
    Some(archive.name_for_index(i)?.to_string())
}

/// Relies on zip's ZipArchive::new, ZipArchive::by_index and std's
/// read_to_string.
#[verifier::external_body]
fn zip_entry_text_at(data: &[u8], i: usize) -> (r: Option<String>)
    ensures
        match r {
            Some(t) => zip_text_at_of(data@, i as int) == Some(t@),
            None => zip_text_at_of(data@, i as int) is None,
        },
{
    let mut archive = zip::ZipArchive::new(std::io::Cursor::new(data)).ok()?;
    let mut file = archive.by_index(i).ok()?;
    let mut content = String::new();
    std::io::Read::read_to_string(&mut file, &mut content).ok()?;
    Some(content)
}

/// Relies on zip's ZipArchive::new, ZipArchive::by_name and std's
/// read_to_string.
#[verifier::external_body]
fn zip_text_by_name(data: &[u8], name: &str) -> (r: Option<String>)
    ensures
        match r {
            Some(t) => zip_text_by_name_of(data@, name@) == Some(t@),
            None => zip_text_by_name_of(data@, name@) is None,
        },
{
    let mut archive = zip::ZipArchive::new(std::io::Cursor::new(data)).ok()?;
    let mut file = archive.by_name(name).ok()?;
    let mut content = String::new();
    std::io::Read::read_to_string(&mut file, &mut content).ok()?;
    Some(content)
}

// ---------------------------------------------------------------------------
// The XML token stream as a named result of the parsed text
// ---------------------------------------------------------------------------

/// One lexical step of an XML scan, reduced to what the extractors read.
pub enum XmlToken {
    /// An element opens; the payload is its raw name.
    Start(Vec<u8>),
    /// An element closes; the payload is its raw name.
    End(Vec<u8>),
    /// Unescaped character data.
    Text(String),
    /// Character data whose entities could not be resolved.
    BadText,
    /// Anything else (comments, declarations, empty elements, ...).
    Other,
    /// The parser failed; scanning stops.
    Stop,
    /// The input is exhausted.
    Eof,
}

/// The mathematical form of one token.
pub enum XmlTok {
    Start(Seq<u8>),
    End(Seq<u8>),
    Text(Seq<char>),
    BadText,
    Other,
    Stop,
    Eof,
}

impl View for XmlToken {
    type V = XmlTok;

    open spec fn view(&self) -> XmlTok {
        match self {
            XmlToken::Start(n) => XmlTok::Start(n@),
            XmlToken::End(n) => XmlTok::End(n@),
            XmlToken::Text(t) => XmlTok::Text(t@),
            XmlToken::BadText => XmlTok::BadText,
            XmlToken::Other => XmlTok::Other,
            XmlToken::Stop => XmlTok::Stop,
            XmlToken::Eof => XmlTok::Eof,
        }
    }
}

/// The token sequence the parser yields for this text, in order.  The
/// result depends on the text alone.
pub uninterp spec fn xml_stream_of(s: Seq<char>) -> Seq<XmlTok>;

/// The tokens a particular reader will still yield.
pub uninterp spec fn xml_rest(r: quick_xml::Reader<&[u8]>) -> Seq<XmlTok>;

/// Relies on quick-xml's Reader::from_str: a parser over a string, about
/// to yield the text's token sequence.
#[verifier::external_body]
fn xml_reader<'a>(xml: &'a str) -> (r: quick_xml::Reader<&'a [u8]>)
    ensures
        xml_rest(r) == xml_stream_of(xml@),
{
    quick_xml::Reader::from_str(xml)
}

/// Relies on quick-xml's Reader::read_event and its unescape function:
/// one parsing step, reduced to the token kinds the extractors use; an
/// exhausted reader keeps reporting the end of input.
#[verifier::external_body]
fn next_xml_token(reader: &mut quick_xml::Reader<&[u8]>) -> (r: XmlToken)
    ensures
        xml_rest(*old(reader)).len() > 0 ==> r@ == xml_rest(*old(reader))[0] && xml_rest(
            *final(reader),
        ) == xml_rest(*old(reader)).drop_first(),
        xml_rest(*old(reader)).len() == 0 ==> (r is Eof || r is Stop) && xml_rest(
            *final(reader),
        ).len() == 0,
{
    match reader.read_event() {
        Ok(quick_xml::events::Event::Start(e)) => XmlToken::Start(
            e.name().into_inner().as_bytes().to_vec(),
        ),
        Ok(quick_xml::events::Event::End(e)) => XmlToken::End(
            e.name().into_inner().as_bytes().to_vec(),
        ),
        Ok(quick_xml::events::Event::Text(t)) => match quick_xml::escape::unescape(&t) {
            Ok(s) => XmlToken::Text(s.into_owned()),
            Err(_) => XmlToken::BadText,
        },
        Ok(quick_xml::events::Event::Eof) => XmlToken::Eof,
        Ok(_) => XmlToken::Other,
        Err(_) => XmlToken::Stop,
    }
}

// ---------------------------------------------------------------------------
// The scans over the token stream
// ---------------------------------------------------------------------------

/// The text a Word document part yields from a token sequence: every
/// text node's content followed by one space, until the stream ends or
/// the parser fails.
pub open spec fn docx_fold(ts: Seq<XmlTok>) -> Seq<char>
    decreases ts.len(),
{
    if ts.len() == 0 {
        Seq::empty()
    } else {
        match ts[0] {
            XmlTok::Text(t) => t + seq![' '] + docx_fold(ts.drop_first()),
            XmlTok::Eof => Seq::empty(),
            XmlTok::Stop => Seq::empty(),
            _ => docx_fold(ts.drop_first()),
        }
    }
}

/// All text-node content of a Word main document part, one separating
/// space after each text node; a parse error ends the scan with the text
/// gathered so far.
pub fn docx_xml_text(xml: &str) -> (out: Vec<char>)
    ensures
        out@ == docx_fold(xml_stream_of(xml@)),
{
    let mut reader = xml_reader(xml);
    let mut out: Vec<char> = Vec::new();
    let ghost target = docx_fold(xml_stream_of(xml@));
    loop
        invariant_except_break
            target == docx_fold(xml_stream_of(xml@)),
            target == out@ + docx_fold(xml_rest(reader)),
        ensures
            out@ == target,
        decreases xml_rest(reader).len(),
    {
        let ghost rest = xml_rest(reader);
        let token = next_xml_token(&mut reader);
        let ghost gtok = token@;
        match token {
            XmlToken::Text(t) => {
                proof {
                    assert(rest.len() > 0);
                    assert(rest[0] == XmlTok::Text(t@));
                }
                let tc = chars_of(t.as_str());
                let ghost base = out@;
                let mut k: usize = 0;
                while k < tc.len()
                    invariant
                        k <= tc@.len(),
                        out@ == base + tc@.take(k as int),
                    decreases tc@.len() - k,
                {
                    out.push(tc[k]);
                    k = k + 1;
                    proof {
                        assert(out@ =~= base + tc@.take(k as int));
                    }
                }
                out.push(' ');
                proof {
                    assert(tc@.take(tc@.len() as int) =~= tc@);
                    assert(out@ =~= base + tc@ + seq![' ']);
                    assert(docx_fold(rest) =~= tc@ + seq![' '] + docx_fold(rest.drop_first()));
                    assert(out@ + docx_fold(xml_rest(reader)) =~= base + docx_fold(rest));
                }
            },
            XmlToken::Eof => {
                proof {
                    if rest.len() > 0 {
                        assert(docx_fold(rest) =~= Seq::<char>::empty());
                    }
                    assert(out@ =~= target);
                }
                break;
            },
            XmlToken::Stop => {
                proof {
                    if rest.len() > 0 {
                        assert(docx_fold(rest) =~= Seq::<char>::empty());
                    }
                    assert(out@ =~= target);
                }
                break;
            },
            _ => {
                proof {
                    assert(rest.len() > 0);
                    assert(docx_fold(rest) == docx_fold(rest.drop_first()));
                }
            },
        }
    }
    out
}

/// The raw run-text element name of slide XML.
pub open spec fn run_text_name() -> Seq<u8> {
    seq![0x61u8, 0x3au8, 0x74u8]
}

/// Whether a raw element name is the run-text element of a slide.
fn is_run_text_name(name: &Vec<u8>) -> (r: bool)
    ensures
        r == (name@ == run_text_name()),
{
    if name.len() == 3 && name[0] == 0x61 && name[1] == 0x3a && name[2] == 0x74 {
        proof {
            assert(name@ =~= run_text_name());
        }
        true
    } else {
        proof {
            if name@ == run_text_name() {
                assert(name@.len() == 3);
                assert(name@[0] == 0x61u8 && name@[1] == 0x3au8 && name@[2] == 0x74u8);
            }
        }
        false
    }
}

/// The text a slide part yields from a token sequence: character data
/// strictly inside run-text elements, one space after each closed run,
/// until the stream ends or the parser fails.
pub open spec fn pptx_fold(ts: Seq<XmlTok>, in_text: bool) -> Seq<char>
    decreases ts.len(),
{
    if ts.len() == 0 {
        Seq::empty()
    } else {
        match ts[0] {
            XmlTok::Start(nm) => pptx_fold(
                ts.drop_first(),
                if nm == run_text_name() {
                    true
                } else {
                    in_text
                },
            ),
            XmlTok::End(nm) => if nm == run_text_name() {
                seq![' '] + pptx_fold(ts.drop_first(), false)
            } else {
                pptx_fold(ts.drop_first(), in_text)
            },
            XmlTok::Text(t) => if in_text {
                t + pptx_fold(ts.drop_first(), in_text)
            } else {
                pptx_fold(ts.drop_first(), in_text)
            },
            XmlTok::Eof => Seq::empty(),
            XmlTok::Stop => Seq::empty(),
            _ => pptx_fold(ts.drop_first(), in_text),
        }
    }
}

/// The text of one slide: character data strictly inside run-text
/// elements, a separating space after each closed run; a parse error
/// ends the scan with the text gathered so far.
pub fn pptx_xml_text(xml: &str) -> (out: Vec<char>)
    ensures
        out@ == pptx_fold(xml_stream_of(xml@), false),
{
    let mut reader = xml_reader(xml);
    let mut out: Vec<char> = Vec::new();
    let mut in_text = false;
    let ghost target = pptx_fold(xml_stream_of(xml@), false);
    loop
        invariant_except_break
            target == pptx_fold(xml_stream_of(xml@), false),
            target == out@ + pptx_fold(xml_rest(reader), in_text),
        ensures
            out@ == target,
        decreases xml_rest(reader).len(),
    {
        let ghost rest = xml_rest(reader);
        let ghost in0 = in_text;
        let token = next_xml_token(&mut reader);
        match token {
            XmlToken::Start(name) => {
                proof {
                    assert(rest.len() > 0);
                    assert(rest[0] == XmlTok::Start(name@));
                }
                if is_run_text_name(&name) {
                    in_text = true;
                }
                proof {
                    assert(pptx_fold(rest, in0) == pptx_fold(xml_rest(reader), in_text));
                }
            },
            XmlToken::End(name) => {
                proof {
                    assert(rest.len() > 0);
                    assert(rest[0] == XmlTok::End(name@));
                }
                if is_run_text_name(&name) {
                    in_text = false;
                    out.push(' ');
                    proof {
                        assert(pptx_fold(rest, in0) == seq![' '] + pptx_fold(
                            xml_rest(reader),
                            false,
                        ));
                        assert(out@ + pptx_fold(xml_rest(reader), in_text) =~= target);
                    }
                } else {
                    proof {
                        assert(pptx_fold(rest, in0) == pptx_fold(xml_rest(reader), in_text));
                    }
                }
            },
            XmlToken::Text(t) => {
                proof {
                    assert(rest.len() > 0);
                    assert(rest[0] == XmlTok::Text(t@));
                }
                if in_text {
                    let tc = chars_of(t.as_str());
                    let ghost base = out@;
                    let mut k: usize = 0;
                    while k < tc.len()
                        invariant
                            k <= tc@.len(),
                            out@ == base + tc@.take(k as int),
                        decreases tc@.len() - k,
                    {
                        out.push(tc[k]);
                        k = k + 1;
                        proof {
                            assert(out@ =~= base + tc@.take(k as int));
                        }
                    }
                    proof {
                        assert(tc@.take(tc@.len() as int) =~= tc@);
                        assert(pptx_fold(rest, in0) == t@ + pptx_fold(
                            xml_rest(reader),
                            in_text,
                        ));
                        assert(out@ + pptx_fold(xml_rest(reader), in_text) =~= target);
                    }
                } else {
                    proof {
                        assert(pptx_fold(rest, in0) == pptx_fold(xml_rest(reader), in_text));
                    }
                }
            },
            XmlToken::Eof => {
                proof {
                    if rest.len() > 0 {
                        assert(pptx_fold(rest, in0) =~= Seq::<char>::empty());
                    }
                    assert(out@ =~= target);
                }
                break;
            },
            XmlToken::Stop => {
                proof {
                    if rest.len() > 0 {
                        assert(pptx_fold(rest, in0) =~= Seq::<char>::empty());
                    }
                    assert(out@ =~= target);
                }
                break;
            },
            _ => {
                proof {
                    assert(rest.len() > 0);
                    assert(pptx_fold(rest, in0) == pptx_fold(rest.drop_first(), in0));
                }
            },
        }
    }
    out
}

// ---------------------------------------------------------------------------
// The extractors
// ---------------------------------------------------------------------------

/// `p` is a prefix of `s`.
fn has_prefix(s: &Vec<char>, p: &Vec<char>) -> (r: bool)
    ensures
        r == (s@.len() >= p@.len() && s@.take(p@.len() as int) == p@),
{
    if s.len() < p.len() {
        proof {
            if s@.len() >= p@.len() && s@.take(p@.len() as int) == p@ {
                assert(false);
            }
        }
        return false;
    }
    let mut k: usize = 0;
    while k < p.len()
        invariant
            k <= p@.len(),
            p@.len() <= s@.len(),
            forall|t: int| 0 <= t < k ==> s@[t] == p@[t],
        decreases p@.len() - k,
    {
        if s[k] != p[k] {
            proof {
                if s@.take(p@.len() as int) == p@ {
                    assert(s@.take(p@.len() as int)[k as int] == s@[k as int]);
                }
            }
            return false;
        }
        k = k + 1;
    }
    proof {
        assert(s@.take(p@.len() as int) =~= p@);
    }
    true
}

/// `p` is a suffix of `s`.
fn has_suffix(s: &Vec<char>, p: &Vec<char>) -> (r: bool)
    ensures
        r == (s@.len() >= p@.len() && s@.skip(s@.len() - p@.len()) == p@),
{
    if s.len() < p.len() {
        proof {
            if s@.len() >= p@.len() && s@.skip(s@.len() - p@.len()) == p@ {
                assert(false);
            }
        }
        return false;
    }
    let off: usize = s.len() - p.len();
    let total: usize = s.len();
    let mut k: usize = 0;
    while k < p.len()
        invariant
            k <= p@.len(),
            p@.len() <= s@.len(),
            s@.len() == total,
            off == s@.len() - p@.len(),
            forall|t: int| 0 <= t < k ==> s@[off + t] == p@[t],
        decreases p@.len() - k,
    {
        if s[off + k] != p[k] {
            proof {
                if s@.skip(s@.len() - p@.len()) == p@ {
                    assert(s@.skip(s@.len() - p@.len())[k as int] == s@[off + k]);
                }
            }
            return false;
        }
        k = k + 1;
    }
    proof {
        assert(s@.skip(s@.len() - p@.len()) =~= p@);
    }
    true
}

/// Whether an archive entry name denotes a slide part.
pub open spec fn is_slide_entry(nm: Seq<char>) -> bool {
    nm.len() >= "ppt/slides/slide"@.len() && nm.take("ppt/slides/slide"@.len() as int)
        == "ppt/slides/slide"@ && nm.len() >= ".xml"@.len() && nm.skip(
        nm.len() - ".xml"@.len(),
    ) == ".xml"@
}

/// The concatenated slide text of the archive entries `[i, n)`: slides
/// in archive iteration order, each nonempty slide followed by one
/// newline; absent when an entry or a slide part cannot be read.
pub open spec fn pptx_collect(data: Seq<u8>, i: int, n: int) -> Option<Seq<char>>
    decreases n - i,
{
    if i >= n {
        Some(Seq::empty())
    } else {
        match zip_name_at_of(data, i) {
            None => None,
            Some(nm) => if is_slide_entry(nm) {
                match zip_text_at_of(data, i) {
                    None => None,
                    Some(x) => {
                        let slide = pptx_fold(xml_stream_of(x), false);
                        let piece = if slide.len() > 0 {
                            slide.push('\n')
                        } else {
                            Seq::empty()
                        };
                        match pptx_collect(data, i + 1, n) {
                            None => None,
                            Some(rest) => Some(piece + rest),
                        }
                    },
                }
            } else {
                pptx_collect(data, i + 1, n)
            },
        }
    }
}

/// What Word extraction returns for a payload within the size limit.
pub open spec fn docx_post(p: DocumentProcessor, data: Seq<u8>, r: Result<
    String,
    PortableBrainsError,
>) -> bool {
    match zip_text_by_name_of(data, "word/document.xml"@) {
        None => r matches Err(e) && (e matches PortableBrainsError::ExtractionFailed {
            format,
            cause,
        } && format == Some(DocumentFormat::Docx) && cause@
            == "could not read the main document part"@),
        Some(x) => match r {
            Ok(s) => s@ == finished_text(
                docx_fold(xml_stream_of(x)),
                p.max_text_length as int,
            ) && s@.len() > 0,
            Err(e) => e == PortableBrainsError::EmptyResult && finished_text(
                docx_fold(xml_stream_of(x)),
                p.max_text_length as int,
            ).len() == 0,
        },
    }
}

/// What PowerPoint extraction returns for a payload within the size
/// limit.
pub open spec fn pptx_post(p: DocumentProcessor, data: Seq<u8>, r: Result<
    String,
    PortableBrainsError,
>) -> bool {
    match zip_entry_count_of(data) {
        None => r matches Err(e) && (e matches PortableBrainsError::ExtractionFailed {
            format,
            cause,
        } && format == Some(DocumentFormat::Pptx) && cause@
            == "the payload is not a readable archive"@),
        Some(n) => match pptx_collect(data, 0, n) {
            None => r matches Err(e) && (e matches PortableBrainsError::ExtractionFailed {
                format,
                cause,
            } && format == Some(DocumentFormat::Pptx) && cause@
                == "an archive entry could not be read"@),
            Some(slides) => match r {
                Ok(s) => s@ == finished_text(slides, p.max_text_length as int) && s@.len() > 0,
                Err(e) => e == PortableBrainsError::EmptyResult && finished_text(
                    slides,
                    p.max_text_length as int,
                ).len() == 0,
            },
        },
    }
}

impl DocumentProcessor {
    /// Extract text from a Word payload: all text nodes of the main
    /// document part, in document order.
    pub fn extract_text_from_docx(&self, file_data: &[u8]) -> (r: Result<
        String,
        PortableBrainsError,
    >)
        ensures
            file_data@.len() > self.max_file_size ==> r == Err::<String, PortableBrainsError>(
                PortableBrainsError::SizeLimitExceeded {
                    size: file_data@.len() as usize,
                    limit: self.max_file_size,
                },
            ),
            file_data@.len() <= self.max_file_size ==> docx_post(*self, file_data@, r),
    {
        if file_data.len() > self.max_file_size {
            return Err(
                PortableBrainsError::SizeLimitExceeded {
                    size: file_data.len(),
                    limit: self.max_file_size,
                },
            );
        }
        let xml = match zip_text_by_name(file_data, "word/document.xml") {
            Some(x) => x,
            None => {
                return Err(
                    PortableBrainsError::ExtractionFailed {
                        format: Some(DocumentFormat::Docx),
                        cause: String::from_str("could not read the main document part"),
                    },
                );
            },
        };
        let text = docx_xml_text(xml.as_str());
        self.finish_text(&text)
    }

    /// Extract text from a PowerPoint payload: run text of every slide
    /// part, slides separated by newlines, in archive iteration order.
    pub fn extract_text_from_pptx(&self, file_data: &[u8]) -> (r: Result<
        String,
        PortableBrainsError,
    >)
        ensures
            file_data@.len() > self.max_file_size ==> r == Err::<String, PortableBrainsError>(
                PortableBrainsError::SizeLimitExceeded {
                    size: file_data@.len() as usize,
                    limit: self.max_file_size,
                },
            ),
            file_data@.len() <= self.max_file_size ==> pptx_post(*self, file_data@, r),
    {
        if file_data.len() > self.max_file_size {
            return Err(
                PortableBrainsError::SizeLimitExceeded {
                    size: file_data.len(),
                    limit: self.max_file_size,
                },
            );
        }
        let entries = match zip_entry_count(file_data) {
            Some(n) => n,
            None => {
                return Err(
                    PortableBrainsError::ExtractionFailed {
                        format: Some(DocumentFormat::Pptx),
                        cause: String::from_str("the payload is not a readable archive"),
                    },
                );
            },
        };
        let slide_prefix = chars_of("ppt/slides/slide");
        let slide_suffix = chars_of(".xml");
        let mut all_text: Vec<char> = Vec::new();
        let ghost n = entries as int;
        let mut i: usize = 0;
        while i < entries
            invariant
                i <= entries,
                n == entries as int,
                file_data@.len() <= self.max_file_size,
                zip_entry_count_of(file_data@) == Some(n),
                slide_prefix@ == "ppt/slides/slide"@,
                slide_suffix@ == ".xml"@,
                pptx_collect(file_data@, 0, n) == (match pptx_collect(file_data@, i as int, n) {
                    None => None::<Seq<char>>,
                    Some(rest) => Some(all_text@ + rest),
                }),
            decreases entries - i,
        {
            let name = match zip_entry_name_at(file_data, i) {
                Some(nm) => nm,
                None => {
                    proof {
                        assert(pptx_collect(file_data@, i as int, n) is None);
                        assert(pptx_collect(file_data@, 0, n) is None);
                    }
                    return Err(
                        PortableBrainsError::ExtractionFailed {
                            format: Some(DocumentFormat::Pptx),
                            cause: String::from_str("an archive entry could not be read"),
                        },
                    );
                },
            };
            let name_chars = chars_of(name.as_str());
            if has_prefix(&name_chars, &slide_prefix) && has_suffix(&name_chars, &slide_suffix) {
                proof {
                    assert(is_slide_entry(name@));
                }
                let xml = match zip_entry_text_at(file_data, i) {
                    Some(x) => x,
                    None => {
                        proof {
                            assert(pptx_collect(file_data@, i as int, n) is None);
                            assert(pptx_collect(file_data@, 0, n) is None);
                        }
                        return Err(
                            PortableBrainsError::ExtractionFailed {
                                format: Some(DocumentFormat::Pptx),
                                cause: String::from_str("an archive entry could not be read"),
                            },
                        );
                    },
                };
                let slide_text = pptx_xml_text(xml.as_str());
                let ghost base = all_text@;
                if slide_text.len() > 0 {
                    let mut k: usize = 0;
                    while k < slide_text.len()
                        invariant
                            k <= slide_text@.len(),
                            all_text@ == base + slide_text@.take(k as int),
                        decreases slide_text@.len() - k,
                    {
                        all_text.push(slide_text[k]);
                        k = k + 1;
                        proof {
                            assert(all_text@ =~= base + slide_text@.take(k as int));
                        }
                    }
                    all_text.push('\n');
                    proof {
                        assert(slide_text@.take(slide_text@.len() as int) =~= slide_text@);
                        assert(all_text@ =~= base + slide_text@.push('\n'));
                    }
                } else {
                    proof {
                        assert(all_text@ =~= base + Seq::<char>::empty());
                    }
                }
            } else {
                proof {
                    assert(!is_slide_entry(name@));
                }
            }
            i = i + 1;
        }
        proof {
            assert(pptx_collect(file_data@, n, n) == Some(Seq::<char>::empty()));
            assert(all_text@ + Seq::<char>::empty() =~= all_text@);
        }
        self.finish_text(&all_text)
    }
}

} // verus!
