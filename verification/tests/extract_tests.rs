use std::io::Cursor;
use std::io::Write;

use portable_brains::errors::PortableBrainsError;
use portable_brains::lancedb_storage::LanceDBStorage;
use portable_brains::pipeline::process_document;
use portable_brains::processor::DocumentProcessor;
use portable_brains::storage::Storage;

fn build_zip(entries: &[(&str, &str)]) -> Vec<u8> {
    let mut writer = zip::ZipWriter::new(Cursor::new(Vec::new()));
    let options = zip::write::SimpleFileOptions::default();
    for (name, content) in entries {
        writer.start_file(*name, options).unwrap();
        writer.write_all(content.as_bytes()).unwrap();
    }
    writer.finish().unwrap().into_inner()
}

#[test]
fn docx_text_nodes_are_extracted_in_order() {
    let xml = "<?xml version=\"1.0\" encoding=\"UTF-8\"?>\
        <w:document xmlns:w=\"http://schemas.openxmlformats.org/wordprocessingml/2006/main\">\
        <w:body><w:p><w:r><w:t>Hello docx world.</w:t></w:r>\
        <w:r><w:t>Second run of text.</w:t></w:r></w:p></w:body></w:document>";
    let data = build_zip(&[("word/document.xml", xml)]);
    let processor = DocumentProcessor::new();
    let text = processor.extract_text_from_docx(&data).unwrap();
    assert_eq!(text, "Hello docx world. Second run of text.");
}

#[test]
fn docx_without_the_main_part_fails() {
    let data = build_zip(&[("word/other.xml", "<x/>")]);
    let processor = DocumentProcessor::new();
    let r = processor.extract_text_from_docx(&data);
    assert!(matches!(r, Err(PortableBrainsError::ExtractionFailed { .. })));
}

#[test]
fn pptx_takes_only_run_text_from_slides() {
    let slide = "<?xml version=\"1.0\"?>\
        <p:sld xmlns:p=\"http://schemas.openxmlformats.org/presentationml/2006/main\" \
        xmlns:a=\"http://schemas.openxmlformats.org/drawingml/2006/main\">\
        <p:cSld><a:t>Slide one headline.</a:t>\
        <a:ignored>invisible scaffolding</a:ignored>\
        <a:t>More slide text.</a:t></p:cSld></p:sld>";
    let data = build_zip(&[
        ("ppt/presentation.xml", "<p:presentation/>"),
        ("ppt/slides/slide1.xml", slide),
    ]);
    let processor = DocumentProcessor::new();
    let text = processor.extract_text_from_pptx(&data).unwrap();
    assert_eq!(text, "Slide one headline. More slide text.");
}

#[test]
fn html_prefers_the_body_and_keeps_script_text() {
    let html = "<html><head><title>ignored title</title></head>\
        <body><p>Hello html world.</p><script>var leaky = 1;</script></body></html>";
    let processor = DocumentProcessor::new();
    let text = processor.extract_text_from_html(html.as_bytes()).unwrap();
    assert!(text.contains("Hello html world."));
    // script content inside the body is not filtered out
    assert!(text.contains("var leaky = 1;"));
    assert!(!text.contains("ignored title"));
}

#[test]
fn html_without_a_body_falls_back_to_the_whole_document() {
    let processor = DocumentProcessor::new();
    let text = processor
        .extract_text_from_html(b"just a text fragment, no markup")
        .unwrap();
    assert_eq!(text, "just a text fragment, no markup");
}

#[test]
fn xlsx_rows_join_cells_and_close_each_sheet() {
    let content_types = "<?xml version=\"1.0\" encoding=\"UTF-8\" standalone=\"yes\"?>\
        <Types xmlns=\"http://schemas.openxmlformats.org/package/2006/content-types\">\
        <Default Extension=\"rels\" ContentType=\"application/vnd.openxmlformats-package.relationships+xml\"/>\
        <Default Extension=\"xml\" ContentType=\"application/xml\"/>\
        <Override PartName=\"/xl/workbook.xml\" ContentType=\"application/vnd.openxmlformats-officedocument.spreadsheetml.sheet.main+xml\"/>\
        <Override PartName=\"/xl/worksheets/sheet1.xml\" ContentType=\"application/vnd.openxmlformats-officedocument.spreadsheetml.worksheet+xml\"/>\
        </Types>";
    let rels = "<?xml version=\"1.0\" encoding=\"UTF-8\" standalone=\"yes\"?>\
        <Relationships xmlns=\"http://schemas.openxmlformats.org/package/2006/relationships\">\
        <Relationship Id=\"rId1\" Type=\"http://schemas.openxmlformats.org/officeDocument/2006/relationships/officeDocument\" Target=\"xl/workbook.xml\"/>\
        </Relationships>";
    let workbook = "<?xml version=\"1.0\" encoding=\"UTF-8\" standalone=\"yes\"?>\
        <workbook xmlns=\"http://schemas.openxmlformats.org/spreadsheetml/2006/main\" \
        xmlns:r=\"http://schemas.openxmlformats.org/officeDocument/2006/relationships\">\
        <sheets><sheet name=\"Sheet1\" sheetId=\"1\" r:id=\"rId1\"/></sheets></workbook>";
    let workbook_rels = "<?xml version=\"1.0\" encoding=\"UTF-8\" standalone=\"yes\"?>\
        <Relationships xmlns=\"http://schemas.openxmlformats.org/package/2006/relationships\">\
        <Relationship Id=\"rId1\" Type=\"http://schemas.openxmlformats.org/officeDocument/2006/relationships/worksheet\" Target=\"worksheets/sheet1.xml\"/>\
        </Relationships>";
    let sheet = "<?xml version=\"1.0\" encoding=\"UTF-8\" standalone=\"yes\"?>\
        <worksheet xmlns=\"http://schemas.openxmlformats.org/spreadsheetml/2006/main\">\
        <sheetData><row r=\"1\"><c r=\"A1\"><v>1</v></c><c r=\"B1\"><v>2</v></c></row>\
        <row r=\"2\"><c r=\"A2\"><v>3</v></c></row></sheetData></worksheet>";
    let data = build_zip(&[
        ("[Content_Types].xml", content_types),
        ("_rels/.rels", rels),
        ("xl/workbook.xml", workbook),
        ("xl/_rels/workbook.xml.rels", workbook_rels),
        ("xl/worksheets/sheet1.xml", sheet),
    ]);
    let processor = DocumentProcessor::new();
    let text = processor.extract_text_from_xlsx(&data).unwrap();
    assert_eq!(text, "1 | 2\n\n3\n\n--- End of sheet: Sheet1 ---");
}

fn build_pdf_with_text(text: &str) -> Vec<u8> {
    let mut doc = lopdf::Document::with_version("1.5");
    let pages_id = doc.new_object_id();

    let mut font = lopdf::Dictionary::new();
    font.set("Type", lopdf::Object::Name(b"Font".to_vec()));
    font.set("Subtype", lopdf::Object::Name(b"Type1".to_vec()));
    font.set("BaseFont", lopdf::Object::Name(b"Helvetica".to_vec()));
    let font_id = doc.add_object(lopdf::Object::Dictionary(font));

    let mut fonts = lopdf::Dictionary::new();
    fonts.set("F1", lopdf::Object::Reference(font_id));
    let mut resources = lopdf::Dictionary::new();
    resources.set("Font", lopdf::Object::Dictionary(fonts));

    let content = lopdf::content::Content {
        operations: vec![
            lopdf::content::Operation::new("BT", vec![]),
            lopdf::content::Operation::new(
                "Tf",
                vec![lopdf::Object::Name(b"F1".to_vec()), lopdf::Object::Integer(24)],
            ),
            lopdf::content::Operation::new(
                "Td",
                vec![lopdf::Object::Integer(100), lopdf::Object::Integer(700)],
            ),
            lopdf::content::Operation::new(
                "Tj",
                vec![lopdf::Object::String(
                    text.as_bytes().to_vec(),
                    lopdf::StringFormat::Literal,
                )],
            ),
            lopdf::content::Operation::new("ET", vec![]),
        ],
    };
    let content_id = doc.add_object(lopdf::Object::Stream(lopdf::Stream::new(
        lopdf::Dictionary::new(),
        content.encode().unwrap(),
    )));

    let mut page = lopdf::Dictionary::new();
    page.set("Type", lopdf::Object::Name(b"Page".to_vec()));
    page.set("Parent", lopdf::Object::Reference(pages_id));
    page.set("Contents", lopdf::Object::Reference(content_id));
    page.set("Resources", lopdf::Object::Dictionary(resources));
    page.set(
        "MediaBox",
        lopdf::Object::Array(vec![
            lopdf::Object::Integer(0),
            lopdf::Object::Integer(0),
            lopdf::Object::Integer(612),
            lopdf::Object::Integer(792),
        ]),
    );
    let page_id = doc.add_object(lopdf::Object::Dictionary(page));

    let mut pages = lopdf::Dictionary::new();
    pages.set("Type", lopdf::Object::Name(b"Pages".to_vec()));
    pages.set("Kids", lopdf::Object::Array(vec![lopdf::Object::Reference(page_id)]));
    pages.set("Count", lopdf::Object::Integer(1));
    doc.objects.insert(pages_id, lopdf::Object::Dictionary(pages));

    let mut catalog = lopdf::Dictionary::new();
    catalog.set("Type", lopdf::Object::Name(b"Catalog".to_vec()));
    catalog.set("Pages", lopdf::Object::Reference(pages_id));
    let catalog_id = doc.add_object(lopdf::Object::Dictionary(catalog));
    doc.trailer.set("Root", lopdf::Object::Reference(catalog_id));

    let mut buf = Vec::new();
    doc.save_to(&mut buf).unwrap();
    buf
}

fn build_pdf_without_text() -> Vec<u8> {
    let mut doc = lopdf::Document::with_version("1.5");
    let pages_id = doc.new_object_id();

    let mut page = lopdf::Dictionary::new();
    page.set("Type", lopdf::Object::Name(b"Page".to_vec()));
    page.set("Parent", lopdf::Object::Reference(pages_id));
    let page_id = doc.add_object(lopdf::Object::Dictionary(page));

    let mut pages = lopdf::Dictionary::new();
    pages.set("Type", lopdf::Object::Name(b"Pages".to_vec()));
    pages.set("Kids", lopdf::Object::Array(vec![lopdf::Object::Reference(page_id)]));
    pages.set("Count", lopdf::Object::Integer(1));
    doc.objects.insert(pages_id, lopdf::Object::Dictionary(pages));

    let mut catalog = lopdf::Dictionary::new();
    catalog.set("Type", lopdf::Object::Name(b"Catalog".to_vec()));
    catalog.set("Pages", lopdf::Object::Reference(pages_id));
    let catalog_id = doc.add_object(lopdf::Object::Dictionary(catalog));
    doc.trailer.set("Root", lopdf::Object::Reference(catalog_id));

    let mut buf = Vec::new();
    doc.save_to(&mut buf).unwrap();
    buf
}

#[test]
fn pdf_page_text_is_extracted() {
    let data = build_pdf_with_text("Hello pdf world.");
    let processor = DocumentProcessor::new();
    let text = processor.extract_text_from_pdf(&data).unwrap();
    assert!(text.contains("Hello pdf world."));
}

#[test]
fn textless_pdf_is_an_empty_result_but_its_record_survives() {
    let data = build_pdf_without_text();
    let processor = DocumentProcessor::new();
    let direct = processor.extract_text_from_pdf(&data);
    assert!(matches!(direct, Err(PortableBrainsError::EmptyResult)));

    // phase one stores the raw bytes before extracting: the document
    // record outlives the failed extraction, and no fragments exist
    let mut st = LanceDBStorage::new("demo").unwrap();
    let r = process_document(&mut st, &processor, "in/scan.pdf", &data);
    assert!(matches!(r, Err(PortableBrainsError::EmptyResult)));
    assert_eq!(st.document_exists("in/scan.pdf").unwrap(), true);
    assert_eq!(st.docs.len(), 1);
    assert!(st.frags.is_empty());
}

#[test]
fn corrupt_pdf_fails_with_an_extraction_error() {
    let processor = DocumentProcessor::new();
    let r = processor.extract_text_from_pdf(b"this is not a pdf at all");
    assert!(matches!(
        r,
        Err(PortableBrainsError::ExtractionFailed { .. })
    ));
}
