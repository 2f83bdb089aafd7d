//! Spreadsheet text extraction.
//!
//! Worksheets are visited in their declared order, rows top to bottom;
//! the textual form of every non-empty, non-error cell of a row is joined
//! with " | " into one line, and a marker line closes each sheet.
//!
//! Opening a workbook is deterministic, so its sheet names and cell texts
//! are named results of the byte payload; the extractor's contract is
//! exact over those names.

use vstd::prelude::*;
use crate::chars::chars_of;
use crate::errors::PortableBrainsError;
use crate::format::DocumentFormat;
use crate::normalize::join_with;
use crate::processor::DocumentProcessor;
use crate::processor::finished_text;

verus! {

#[verifier::external_type_specification]
#[verifier::external_body]
#[verifier::reject_recursive_types(T)]
pub struct ExCursor<T>(std::io::Cursor<T>);

#[verifier::external_type_specification]
#[verifier::external_body]
#[verifier::reject_recursive_types(RS)]
pub struct ExSheets<RS>(calamine::Sheets<RS>);

#[verifier::external_type_specification]
#[verifier::external_body]
#[verifier::reject_recursive_types(T)]
pub struct ExRange<T>(calamine::Range<T>);

#[verifier::external_type_specification]
#[verifier::external_body]
pub struct ExData(calamine::Data);

/// The worksheet names of the workbook parsed from the payload, in
/// declared order; absent when the payload is not a readable workbook.
pub uninterp spec fn xlsx_sheet_names_of(data: Seq<u8>) -> Option<Seq<Seq<char>>>;

/// The cell grid of one worksheet of the workbook parsed from the
/// payload: per row, per column, the cell's textual form, with empty and
/// error cells absent; the grid itself is absent when the worksheet
/// cannot be read.
pub uninterp spec fn xlsx_cells_of(data: Seq<u8>, name: Seq<char>) -> Option<
    Seq<Seq<Option<Seq<char>>>>,
>;

/// The worksheet names a particular open workbook reports.
pub uninterp spec fn workbook_names(wb: calamine::Sheets<std::io::Cursor<Vec<u8>>>) -> Seq<
    Seq<char>,
>;

/// The cell grid a particular open workbook reports for one worksheet.
pub uninterp spec fn workbook_cells(
    wb: calamine::Sheets<std::io::Cursor<Vec<u8>>>,
    name: Seq<char>,
) -> Option<Seq<Seq<Option<Seq<char>>>>>;

/// The cell grid one range value holds.
pub uninterp spec fn range_cells_of(range: calamine::Range<calamine::Data>) -> Seq<
    Seq<Option<Seq<char>>>,
>;

/// Relies on calamine's open_workbook_auto_from_rs over an in-memory
/// cursor: detects the workbook format and opens it; what the workbook
/// reports is a function of the payload.
#[verifier::external_body]
fn open_workbook(data: Vec<u8>) -> (r: Option<calamine::Sheets<std::io::Cursor<Vec<u8>>>>)
    ensures
        match r {
            Some(wb) => xlsx_sheet_names_of(data@) == Some(workbook_names(wb)) && forall|
                nm: Seq<char>,
            | #[trigger] workbook_cells(wb, nm) == xlsx_cells_of(data@, nm),
            None => xlsx_sheet_names_of(data@) is None,
        },
{
    match calamine::open_workbook_auto_from_rs(std::io::Cursor::new(data)) {
        Ok(wb) => Some(wb),
        Err(_) => None,
    }
}

/// Relies on calamine's Reader::sheet_names: the worksheet names in their
/// declared order.
#[verifier::external_body]
fn workbook_sheet_names(wb: &calamine::Sheets<std::io::Cursor<Vec<u8>>>) -> (r: Vec<String>)
    ensures
        r.deep_view() == workbook_names(*wb),
{
    calamine::Reader::sheet_names(wb)
}

/// Relies on calamine's Reader::worksheet_range: the cell range of one
/// worksheet; a sheet that cannot be read yields nothing.  Reading does
/// not change what the workbook reports.
#[verifier::external_body]
fn worksheet_range(wb: &mut calamine::Sheets<std::io::Cursor<Vec<u8>>>, name: &str) -> (r:
    Option<calamine::Range<calamine::Data>>)
    ensures
        workbook_names(*final(wb)) == workbook_names(*old(wb)),
        forall|nm: Seq<char>| #[trigger]
            workbook_cells(*final(wb), nm) == workbook_cells(*old(wb), nm),
        match r {
            Some(rg) => workbook_cells(*old(wb), name@) == Some(range_cells_of(rg)),
            None => workbook_cells(*old(wb), name@) is None,
        },
{
    match calamine::Reader::worksheet_range(wb, name) {
        Ok(range) => Some(range),
        Err(_) => None,
    }
}

/// Relies on calamine's Range::get_size: the (height, width) of a
/// rectangular range.
#[verifier::external_body]
fn range_size(range: &calamine::Range<calamine::Data>) -> (r: (usize, usize))
    ensures
        r.0 as int == range_cells_of(*range).len(),
        forall|i: int|
            0 <= i < range_cells_of(*range).len() ==> (#[trigger] range_cells_of(
                *range,
            )[i]).len() == r.1 as int,
{
    range.get_size()
}

/// Relies on calamine's Range::get and the Display form of its cell data:
/// the textual form of one cell, with empty and error cells skipped.
#[verifier::external_body]
fn cell_text(range: &calamine::Range<calamine::Data>, row: usize, col: usize) -> (r: Option<
    String,
>)
    ensures
        0 <= row < range_cells_of(*range).len() && 0 <= col < range_cells_of(*range)[
            row as int].len() ==> match r {
            Some(t) => range_cells_of(*range)[row as int][col as int] == Some(t@),
            None => range_cells_of(*range)[row as int][col as int] is None,
        },
{
    match range.get((row, col)) {
        None => None,
        Some(calamine::Data::Empty) => None,
        Some(calamine::Data::Error(_)) => None,
        Some(other) => Some(other.to_string()),
    }
}

/// The present cells of one row, in column order.
pub open spec fn row_cells(row: Seq<Option<Seq<char>>>) -> Seq<Seq<char>>
    decreases row.len(),
{
    if row.len() == 0 {
        Seq::empty()
    } else {
        match row.last() {
            Some(c) => row_cells(row.drop_last()).push(c),
            None => row_cells(row.drop_last()),
        }
    }
}

/// The text of one sheet's rows: each row with at least one present cell
/// contributes its cells joined by " | " and a newline.
pub open spec fn rows_text(cells: Seq<Seq<Option<Seq<char>>>>) -> Seq<char>
    decreases cells.len(),
{
    if cells.len() == 0 {
        Seq::empty()
    } else {
        rows_text(cells.drop_last()) + (
        if row_cells(cells.last()).len() > 0 {
            join_with(seq![' ', '|', ' '], row_cells(cells.last())).push('\n')
        } else {
            Seq::empty()
        })
    }
}

/// The human-readable marker closing one sheet.
pub open spec fn sheet_marker(name: Seq<char>) -> Seq<char> {
    "\n--- End of sheet: "@ + name + " ---\n"@
}

/// What one worksheet contributes: its rows' text and the closing
/// marker, or nothing when the worksheet cannot be read.
pub open spec fn sheet_block(data: Seq<u8>, name: Seq<char>) -> Seq<char> {
    match xlsx_cells_of(data, name) {
        None => Seq::empty(),
        Some(cells) => rows_text(cells) + sheet_marker(name),
    }
}

/// The raw text of the worksheets named, in order.
pub open spec fn sheets_text(data: Seq<u8>, names: Seq<Seq<char>>) -> Seq<char>
    decreases names.len(),
{
    if names.len() == 0 {
        Seq::empty()
    } else {
        sheets_text(data, names.drop_last()) + sheet_block(data, names.last())
    }
}

/// One spreadsheet row as a line: the cells joined with " | ".
pub fn join_row(cells: &Vec<String>) -> (out: Vec<char>)
    ensures
        out@ == join_with(seq![' ', '|', ' '], cells.deep_view()),
{
    let mut out: Vec<char> = Vec::new();
    let mut k: usize = 0;
    while k < cells.len()
        invariant
            k <= cells@.len(),
            out@ == join_with(seq![' ', '|', ' '], cells.deep_view().take(k as int)),
        decreases cells@.len() - k,
    {
        proof {
            assert(cells.deep_view().take(k + 1).drop_last() =~= cells.deep_view().take(
                k as int,
            ));
            assert(cells.deep_view().take(k + 1).last() == cells.deep_view()[k as int]);
            assert(cells.deep_view()[k as int] == cells@[k as int]@);
        }
        if k > 0 {
            out.push(' ');
            out.push('|');
            out.push(' ');
        } else {
            proof {
                assert(join_with(seq![' ', '|', ' '], cells.deep_view().take(1))
                    == cells.deep_view()[0]);
            }
        }
        let ghost mid = out@;
        let cell = chars_of(cells[k].as_str());
        let mut t: usize = 0;
        while t < cell.len()
            invariant
                t <= cell@.len(),
                out@ == mid + cell@.take(t as int),
            decreases cell@.len() - t,
        {
            out.push(cell[t]);
            t = t + 1;
            proof {
                assert(out@ =~= mid + cell@.take(t as int));
            }
        }
        proof {
            assert(cell@.take(cell@.len() as int) =~= cell@);
            assert(out@ =~= join_with(seq![' ', '|', ' '], cells.deep_view().take(k + 1)));
        }
        k = k + 1;
    }
    proof {
        assert(cells.deep_view().take(cells@.len() as int) =~= cells.deep_view());
    }
    out
}

/// What spreadsheet extraction returns for a payload within the size
/// limit.
pub open spec fn xlsx_post(p: DocumentProcessor, data: Seq<u8>, r: Result<
    String,
    PortableBrainsError,
>) -> bool {
    match xlsx_sheet_names_of(data) {
        None => r matches Err(e) && (e matches PortableBrainsError::ExtractionFailed {
            format,
            cause,
        } && format == Some(DocumentFormat::Xlsx) && cause@
            == "the payload is not a readable workbook"@),
        Some(names) => match r {
            Ok(s) => s@ == finished_text(sheets_text(data, names), p.max_text_length as int)
                && s@.len() > 0,
            Err(e) => e == PortableBrainsError::EmptyResult && finished_text(
                sheets_text(data, names),
                p.max_text_length as int,
            ).len() == 0,
        },
    }
}

impl DocumentProcessor {
    /// Extract text from a spreadsheet payload: every worksheet in
    /// declared order, one " | "-joined line per non-empty row, a marker
    /// line after each sheet.
    #[verifier::rlimit(80)]
    pub fn extract_text_from_xlsx(&self, file_data: &[u8]) -> (r: Result<
        String,
        PortableBrainsError,
    >)
        ensures
            file_data@.len() > self.max_file_size ==> r == Err::<String, PortableBrainsError>(
                PortableBrainsError::SizeLimitExceeded {
                    size: file_data@.len() as usize,
                    limit: self.max_file_size,
                },
            ),
            file_data@.len() <= self.max_file_size ==> xlsx_post(*self, file_data@, r),
    {
        if file_data.len() > self.max_file_size {
            return Err(
                PortableBrainsError::SizeLimitExceeded {
                    size: file_data.len(),
                    limit: self.max_file_size,
                },
            );
        }
        let mut workbook = match open_workbook(crate::lancedb_storage::copy_bytes(file_data)) {
            Some(wb) => wb,
            None => {
                return Err(
                    PortableBrainsError::ExtractionFailed {
                        format: Some(DocumentFormat::Xlsx),
                        cause: String::from_str("the payload is not a readable workbook"),
                    },
                );
            },
        };
        let ghost names = workbook_names(workbook);
        let names_vec = workbook_sheet_names(&workbook);
        let mut all_text: Vec<char> = Vec::new();
        let mut s: usize = 0;
        while s < names_vec.len()
            invariant
                s <= names_vec@.len(),
                names_vec.deep_view() == names,
                workbook_names(workbook) == names,
                forall|nm: Seq<char>| #[trigger]
                    workbook_cells(workbook, nm) == xlsx_cells_of(file_data@, nm),
                all_text@ == sheets_text(file_data@, names.take(s as int)),
            decreases names_vec@.len() - s,
        {
            proof {
                assert(names.take(s + 1).drop_last() =~= names.take(s as int));
                assert(names.take(s + 1).last() == names[s as int]);
                assert(names[s as int] == names_vec@[s as int]@);
            }
            let ghost sheet_name = names[s as int];
            match worksheet_range(&mut workbook, names_vec[s].as_str()) {
                Some(range) => {
                    let ghost cells = range_cells_of(range);
                    proof {
                        assert(xlsx_cells_of(file_data@, sheet_name) == Some(cells));
                    }
                    let size = range_size(&range);
                    let height = size.0;
                    let width = size.1;
                    let ghost sheet_base = all_text@;
                    let mut row: usize = 0;
                    while row < height
                        invariant
                            row <= height,
                            height as int == cells.len(),
                            forall|i: int|
                                0 <= i < cells.len() ==> (#[trigger] cells[i]).len()
                                    == width as int,
                            cells == range_cells_of(range),
                            all_text@ == sheet_base + rows_text(cells.take(row as int)),
                        decreases height - row,
                    {
                        proof {
                            assert(cells.take(row + 1).drop_last() =~= cells.take(row as int));
                            assert(cells.take(row + 1).last() == cells[row as int]);
                        }
                        let ghost cur_row = cells[row as int];
                        let mut row_texts: Vec<String> = Vec::new();
                        let mut col: usize = 0;
                        while col < width
                            invariant
                                col <= width,
                                row < height,
                                height as int == cells.len(),
                                cur_row == cells[row as int],
                                cur_row.len() == width as int,
                                cells == range_cells_of(range),
                                row_texts.deep_view() == row_cells(cur_row.take(col as int)),
                            decreases width - col,
                        {
                            proof {
                                assert(cur_row.take(col + 1).drop_last() =~= cur_row.take(
                                    col as int,
                                ));
                                assert(cur_row.take(col + 1).last() == cur_row[col as int]);
                            }
                            match cell_text(&range, row, col) {
                                Some(text) => {
                                    let ghost pre = row_texts;
                                    row_texts.push(text);
                                    proof {
                                        crate::chars::lemma_deep_push_str(
                                            pre,
                                            row_texts,
                                            row_texts@.last(),
                                        );
                                    }
                                },
                                None => {},
                            }
                            col = col + 1;
                        }
                        proof {
                            assert(cur_row.take(cur_row.len() as int) =~= cur_row);
                        }
                        if row_texts.len() > 0 {
                            let line = join_row(&row_texts);
                            let ghost line_base = all_text@;
                            let mut t: usize = 0;
                            while t < line.len()
                                invariant
                                    t <= line@.len(),
                                    all_text@ == line_base + line@.take(t as int),
                                decreases line@.len() - t,
                            {
                                all_text.push(line[t]);
                                t = t + 1;
                                proof {
                                    assert(all_text@ =~= line_base + line@.take(t as int));
                                }
                            }
                            all_text.push('\n');
                            proof {
                                assert(line@.take(line@.len() as int) =~= line@);
                                assert(all_text@ =~= sheet_base + rows_text(
                                    cells.take(row + 1),
                                ));
                            }
                        } else {
                            proof {
                                assert(row_cells(cur_row).len() == 0);
                                assert(all_text@ =~= sheet_base + rows_text(
                                    cells.take(row + 1),
                                ));
                            }
                        }
                        row = row + 1;
                    }
                    proof {
                        assert(cells.take(cells.len() as int) =~= cells);
                    }
                    // the human-readable sheet separator
                    let marker_head = chars_of("\n--- End of sheet: ");
                    let ghost before_marker = all_text@;
                    let mut m: usize = 0;
                    while m < marker_head.len()
                        invariant
                            m <= marker_head@.len(),
                            all_text@ == before_marker + marker_head@.take(m as int),
                        decreases marker_head@.len() - m,
                    {
                        all_text.push(marker_head[m]);
                        m = m + 1;
                        proof {
                            assert(all_text@ =~= before_marker + marker_head@.take(m as int));
                        }
                    }
                    let name_chars = chars_of(names_vec[s].as_str());
                    let ghost after_head = all_text@;
                    let mut q: usize = 0;
                    while q < name_chars.len()
                        invariant
                            q <= name_chars@.len(),
                            all_text@ == after_head + name_chars@.take(q as int),
                        decreases name_chars@.len() - q,
                    {
                        all_text.push(name_chars[q]);
                        q = q + 1;
                        proof {
                            assert(all_text@ =~= after_head + name_chars@.take(q as int));
                        }
                    }
                    let marker_tail = chars_of(" ---\n");
                    let ghost after_name = all_text@;
                    let mut w: usize = 0;
                    while w < marker_tail.len()
                        invariant
                            w <= marker_tail@.len(),
                            all_text@ == after_name + marker_tail@.take(w as int),
                        decreases marker_tail@.len() - w,
                    {
                        all_text.push(marker_tail[w]);
                        w = w + 1;
                        proof {
                            assert(all_text@ =~= after_name + marker_tail@.take(w as int));
                        }
                    }
                    proof {
                        assert(marker_head@.take(marker_head@.len() as int) =~= marker_head@);
                        assert(name_chars@.take(name_chars@.len() as int) =~= name_chars@);
                        assert(marker_tail@.take(marker_tail@.len() as int) =~= marker_tail@);
                        assert(all_text@ =~= sheet_base + rows_text(cells) + sheet_marker(
                            sheet_name,
                        ));
                        assert(all_text@ =~= sheets_text(file_data@, names.take(s + 1)));
                    }
                },
                None => {
                    // a worksheet that cannot be read is skipped
                    proof {
                        assert(xlsx_cells_of(file_data@, sheet_name) is None);
                        assert(sheet_block(file_data@, sheet_name) =~= Seq::<char>::empty());
                        assert(all_text@ =~= sheets_text(file_data@, names.take(s + 1)));
                    }
                },
            }
            s = s + 1;
        }
        proof {
            assert(names.take(names.len() as int) =~= names);
        }
        self.finish_text(&all_text)
    }
}

} // verus!
