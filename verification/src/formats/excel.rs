//! xlsx / xls / xlsb / ods → the `Table` form.
//!
//! The workbook itself is opened outside (it is read from disk, and its cells
//! hold floating-point numbers); here its first sheet, already as text, becomes
//! the same `Table` form that csv has.

use vstd::prelude::*;
use crate::doc::{Doc, ext_of, path_ext};
use crate::strs::{owned, decimal, decimal_string};
use crate::csvread::fields_view;
use crate::formats::table::{pad_row, padded, rows_view, table_is_consistent};

verus! {

/// A workbook as read from disk: the names of its sheets and the cells of the
/// first sheet as text, row by row (or why that sheet could not be read).
pub struct Workbook {
    pub sheet_names: Vec<String>,
    pub first_sheet: Result<Vec<Vec<String>>, String>,
}

/// What the table header shows in place of a delimiter: the sheet's name, and
/// how many sheets there are when there is more than one.
pub open spec fn sheet_caption(first: Seq<char>, count: nat) -> Seq<char> {
    if count > 1 {
        "лист «"@ + first + "» из "@ + decimal(count)
    } else {
        "лист «"@ + first + "»"@
    }
}

/// The header caption for a workbook whose first sheet is `first`.
pub fn sheet_label(first: &str, all: &Vec<String>) -> (r: String)
    ensures
        r@ == sheet_caption(first@, all@.len()),
{
    let mut r = owned("лист «");
    r.append(first);
    if all.len() > 1 {
        r.append("» из ");
        r.append(decimal_string(all.len() as u64).as_str());
    } else {
        r.append("»");
    }
    r
}

/// `d` is the document for a workbook with extension `ext`, opened as `book`,
/// returning at most `max_rows` rows: the first row of the first sheet is the
/// header, the rest are counted and the first `max_rows` returned, padded to
/// the header's width.
pub open spec fn workbook_document(ext: Seq<char>, book: Result<Workbook, String>, max_rows: usize, d: Doc) -> bool {
    match book {
        Err(e) => d matches Doc::Unsupported { ext: x, message } && x@ == ext && message@
            == "Не удалось открыть книгу: "@ + e@,
        Ok(wb) => if wb.sheet_names@.len() == 0 {
            d matches Doc::Unsupported { ext: x, message } && x@ == ext && message@
                == "В книге нет ни одного листа"@
        } else {
            let first = wb.sheet_names@[0]@;
            let caption = sheet_caption(first, wb.sheet_names@.len());
            match wb.first_sheet {
                Err(e) => d matches Doc::Unsupported { ext: x, message } && x@ == ext && message@
                    == "Лист «"@ + first + "» не читается: "@ + e@,
                Ok(cells) => {
                    let all = rows_view(cells);
                    if all.len() == 0 {
                        &&& d matches Doc::Table { columns, rows, total_rows, truncated, delimiter }
                        &&& columns@.len() == 0
                        &&& rows@.len() == 0
                        &&& total_rows == 0
                        &&& !truncated
                        &&& delimiter@ == caption
                    } else {
                        let header = all[0];
                        let total = (all.len() - 1) as nat;
                        let shown = if total < max_rows {
                            total
                        } else {
                            max_rows as nat
                        };
                        &&& d matches Doc::Table { columns, rows, total_rows, truncated, delimiter }
                        &&& fields_view(columns) == header
                        &&& total_rows == total
                        &&& rows_view(rows).len() == shown
                        &&& forall|i: int|
                            0 <= i < shown ==> #[trigger] rows_view(rows)[i] == padded(
                                all[i + 1],
                                header.len(),
                            )
                        &&& truncated == (total > shown)
                        &&& delimiter@ == caption
                    }
                },
            }
        },
    }
}

/// A workbook becomes a consistent table (see `table_is_consistent`) that
/// returns at most `max_rows` rows.
pub proof fn law_workbook_table_is_consistent(ext: Seq<char>, book: Result<Workbook, String>, max_rows: usize, d: Doc)
    requires
        workbook_document(ext, book, max_rows, d),
    ensures
        table_is_consistent(d),
        d matches Doc::Table { rows, .. } ==> rows@.len() <= max_rows,
{
    if let (Ok(wb), Doc::Table { columns, rows, total_rows, truncated, delimiter }) = (book, d) {
        if let Ok(cells) = wb.first_sheet {
            let all = rows_view(cells);
            if all.len() > 0 {
                assert(fields_view(columns).len() == columns@.len());
                assert forall|i: int| 0 <= i < rows@.len() implies #[trigger] rows_view(rows)[i].len()
                    >= columns@.len() by {
                    assert(rows_view(rows)[i] == padded(all[i + 1], all[0].len()));
                }
            }
        }
    }
}

/// A workbook at `path` → `Table` of its first sheet (see `workbook_document`).
pub fn read(path: &str, book: Result<Workbook, String>, max_rows: usize) -> (r: Doc)
    ensures
        workbook_document(path_ext(path@), book, max_rows, r),
{
    let ext = ext_of(path);
    let wb = match book {
        Err(e) => {
            let mut message = owned("Не удалось открыть книгу: ");
            message.append(e.as_str());
            return Doc::Unsupported { ext, message };
        },
        Ok(wb) => wb,
    };
    if wb.sheet_names.len() == 0 {
        return Doc::Unsupported { ext, message: owned("В книге нет ни одного листа") };
    }
    let first = wb.sheet_names[0].as_str();
    let caption = sheet_label(first, &wb.sheet_names);
    let cells = match &wb.first_sheet {
        Err(e) => {
            let mut message = owned("Лист «");
            message.append(first);
            message.append("» не читается: ");
            message.append(e.as_str());
            return Doc::Unsupported { ext, message };
        },
        Ok(cells) => cells,
    };
    if cells.len() == 0 {
        return Doc::Table {
            columns: Vec::new(),
            rows: Vec::new(),
            total_rows: 0,
            truncated: false,
            delimiter: caption,
        };
    }
    let columns = copy_row(&cells[0]);
    let width = columns.len();
    let total: usize = cells.len() - 1;
    let mut rows: Vec<Vec<String>> = Vec::new();
    let ghost all = rows_view(*cells);
    let mut i: usize = 1;
    while i < cells.len() && rows.len() < max_rows
        invariant
            1 <= i <= cells.len(),
            all == rows_view(*cells),
            all.len() == cells.len(),
            rows.len() == i - 1,
            rows.len() <= max_rows,
            width == all[0].len(),
            forall|k: int| 0 <= k < rows.len() ==> #[trigger] rows_view(rows)[k] == padded(
                all[k + 1],
                width as nat,
            ),
        decreases cells.len() - i,
    {
        let row = pad_row(copy_row(&cells[i]), width);
        let ghost before = rows;
        rows.push(row);
        proof {
            assert forall|k: int| 0 <= k < rows.len() implies #[trigger] rows_view(rows)[k] == padded(
                all[k + 1],
                width as nat,
            ) by {
                if k < before.len() {
                    assert(rows_view(rows)[k] == rows_view(before)[k]);
                }
            }
        }
        i = i + 1;
    }
    let shown = rows.len();
    Doc::Table { columns, rows, total_rows: total, truncated: total > shown, delimiter: caption }
}

/// A copy of a row of cells.
fn copy_row(row: &Vec<String>) -> (r: Vec<String>)
    ensures
        fields_view(r) == fields_view(*row),
{
    let mut r: Vec<String> = Vec::new();
    let mut i: usize = 0;
    while i < row.len()
        invariant
            i <= row.len(),
            r@ == row@.take(i as int),
        decreases row.len() - i,
    {
        r.push(row[i].clone());
        assert(r@ =~= row@.take(i + 1));
        i = i + 1;
    }
    assert(row@.take(row.len() as int) =~= row@);
    r
}

} // verus!
