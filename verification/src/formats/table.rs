//! csv / tsv → the `Table` form.
//!
//! The delimiter is guessed here too: files with the `.csv` extension in a
//! Russian locale regularly use semicolons, because Excel saves them that way
//! when the comma is the decimal separator.

use vstd::prelude::*;
use crate::doc::Doc;
use crate::strs::{chars_of, ascii_lower, lower_ascii, is_word, string_of, owned};
use crate::csvread::{CsvRows, open_csv, csv_headers, csv_next, csv_header, csv_records, fields_view};

verus! {

/// Unicode `White_Space`, as `char::is_whitespace` and `str::trim` use it.
pub open spec fn is_white(c: char) -> bool {
    ('\u{9}' <= c && c <= '\u{d}') || c == ' ' || c == '\u{85}' || c == '\u{a0}' || c == '\u{1680}'
        || ('\u{2000}' <= c && c <= '\u{200a}') || c == '\u{2028}' || c == '\u{2029}' || c
        == '\u{202f}' || c == '\u{205f}' || c == '\u{3000}'
}

/// A line with nothing but white space in it (or nothing at all).
pub open spec fn blank(line: Seq<char>) -> bool {
    forall|i: int| 0 <= i < line.len() ==> is_white(#[trigger] line[i])
}

/// Index of the first line break in `s`, or its length.
pub open spec fn line_end(s: Seq<char>) -> int
    decreases s.len(),
{
    if s.len() == 0 {
        0
    } else if s[0] == '\n' {
        0
    } else {
        1 + line_end(s.drop_first())
    }
}

/// The first line of `sample` that is not blank, or nothing.
pub open spec fn first_filled_line(sample: Seq<char>) -> Seq<char>
    decreases sample.len(),
{
    let k = line_end(sample);
    let line = sample.take(k);
    if !blank(line) {
        line
    } else if k >= sample.len() {
        Seq::empty()
    } else {
        proof {
            lemma_line_end_bounds(sample);
        }
        first_filled_line(sample.skip(k + 1))
    }
}

pub proof fn lemma_line_end_bounds(s: Seq<char>)
    ensures
        0 <= line_end(s) <= s.len(),
        line_end(s) < s.len() ==> s[line_end(s)] == '\n',
        forall|i: int| 0 <= i < line_end(s) ==> s[i] != '\n',
    decreases s.len(),
{
    if s.len() > 0 && s[0] != '\n' {
        lemma_line_end_bounds(s.drop_first());
        assert forall|i: int| 0 <= i < line_end(s) implies s[i] != '\n' by {
            if i > 0 {
                assert(s[i] == s.drop_first()[i - 1]);
            }
        }
    }
}

/// How many times `cand` occurs in `line` outside double quotes, given whether
/// the scan starts inside quotes. Every `"` toggles being inside.
pub open spec fn count_outside(line: Seq<char>, cand: char, quoted: bool) -> nat
    decreases line.len(),
{
    if line.len() == 0 {
        0
    } else if line[0] == '"' {
        count_outside(line.drop_first(), cand, !quoted)
    } else if line[0] == cand && !quoted {
        1 + count_outside(line.drop_first(), cand, quoted)
    } else {
        count_outside(line.drop_first(), cand, quoted)
    }
}

/// Occurrences of `cand` outside quotes in a line.
pub open spec fn outside_count(line: Seq<char>, cand: char) -> nat {
    count_outside(line, cand, false)
}

/// The delimiter candidates, in order of preference on ties.
pub open spec fn candidates() -> Seq<char> {
    seq![',', ';', '\t', '|']
}

/// Among the candidates from `i` on, the best one given the best so far:
/// the first candidate that occurs strictly more often wins.
pub open spec fn best_from(line: Seq<char>, i: int, best: char, best_count: nat) -> char
    decreases 4 - i,
{
    if i >= 4 || i < 0 {
        best
    } else {
        let c = candidates()[i];
        let n = outside_count(line, c);
        if n > best_count {
            best_from(line, i + 1, c, n)
        } else {
            best_from(line, i + 1, best, best_count)
        }
    }
}

/// The delimiter of a delimited text: a tab for `tsv` files; otherwise the
/// candidate that occurs most often outside quotes in the first non-blank line
/// (comma when none occurs, earlier candidates winning ties).
pub open spec fn sniffed(sample: Seq<char>, ext: Seq<char>) -> char {
    if ascii_lower(ext) == "tsv"@ {
        '\t'
    } else {
        best_from(first_filled_line(sample), 0, ',', 0)
    }
}

/// The delimiter byte of a delimited text (see `sniffed`).
pub open spec fn sniffed_delim(sample: Seq<char>, ext: Seq<char>) -> u8 {
    sniffed(sample, ext) as u8
}

proof fn lemma_best_from_is_candidate(line: Seq<char>, i: int, best: char, best_count: nat)
    requires
        best == ',' || candidates().contains(best),
    ensures
        candidates().contains(best_from(line, i, best, best_count)),
    decreases 4 - i,
{
    assert(candidates()[0] == ',');
    if 0 <= i < 4 {
        let c = candidates()[i];
        assert(candidates().contains(c));
        lemma_best_from_is_candidate(line, i + 1, c, outside_count(line, c));
        lemma_best_from_is_candidate(line, i + 1, best, best_count);
    }
}

/// The delimiter guessed for any text is always one of the candidates: a comma,
/// a semicolon, a tab or a vertical bar.
pub proof fn law_sniffed_is_a_candidate(sample: Seq<char>, ext: Seq<char>)
    ensures
        candidates().contains(sniffed(sample, ext)),
{
    assert(candidates()[2] == '\t');
    lemma_best_from_is_candidate(first_filled_line(sample), 0, ',', 0);
}

proof fn lemma_best_from_most_frequent(line: Seq<char>, i: int, best: char, best_count: nat, kb: int)
    requires
        0 <= kb <= i <= 4,
        kb < 4,
        best == candidates()[kb],
        kb < i ==> best_count == outside_count(line, best),
        kb == i ==> kb == 0 && best_count == 0,
        forall|j: int| 0 <= j < kb ==> outside_count(line, #[trigger] candidates()[j]) < best_count,
        forall|j: int| 0 <= j < i ==> outside_count(line, #[trigger] candidates()[j]) <= best_count,
    ensures
        forall|j: int|
            0 <= j < 4 ==> outside_count(line, #[trigger] candidates()[j]) <= outside_count(
                line,
                best_from(line, i, best, best_count),
            ),
        exists|k: int|
            0 <= k < 4 && candidates()[k] == best_from(line, i, best, best_count) && forall|j: int|
                0 <= j < k ==> #[trigger] outside_count(line, candidates()[j]) < outside_count(
                    line,
                    best_from(line, i, best, best_count),
                ),
    decreases 4 - i,
{
    if i < 4 {
        let c = candidates()[i];
        let n = outside_count(line, c);
        if n > best_count {
            lemma_best_from_most_frequent(line, i + 1, c, n, i);
        } else {
            lemma_best_from_most_frequent(line, i + 1, best, best_count, kb);
        }
    } else {
        let r = best_from(line, i, best, best_count);
        assert(r == best);
        assert(candidates()[kb] == r);
    }
}

/// The delimiter guessed for a file other than tsv is the candidate that
/// occurs most often outside quotes in its first non-blank line: it occurs
/// there at least as often as every candidate, every candidate listed before
/// it (`,` `;` tab `|`) occurs strictly less often (so ties go to the earlier
/// one, and a comma is chosen when none occurs). A tsv file is always split
/// on tabs.
pub proof fn law_sniffed_is_most_frequent(sample: Seq<char>, ext: Seq<char>)
    ensures
        ascii_lower(ext) != "tsv"@ ==> forall|j: int|
            0 <= j < 4 ==> outside_count(first_filled_line(sample), #[trigger] candidates()[j])
                <= outside_count(first_filled_line(sample), sniffed(sample, ext)),
        ascii_lower(ext) != "tsv"@ ==> exists|k: int|
            0 <= k < 4 && candidates()[k] == sniffed(sample, ext) && forall|j: int|
                0 <= j < k ==> #[trigger] outside_count(first_filled_line(sample), candidates()[j])
                    < outside_count(first_filled_line(sample), sniffed(sample, ext)),
        ascii_lower(ext) == "tsv"@ ==> sniffed(sample, ext) == '\t',
{
    assert(candidates()[0] == ',');
    lemma_best_from_most_frequent(first_filled_line(sample), 0, ',', 0, 0);
}

/// `str::trim(..).is_empty()` for a slice of characters.
fn is_blank(v: &Vec<char>, from: usize, to: usize) -> (r: bool)
    requires
        from <= to <= v.len(),
    ensures
        r == blank(v@.subrange(from as int, to as int)),
{
    let mut i: usize = from;
    while i < to
        invariant
            from <= i <= to <= v.len(),
            forall|j: int| from <= j < i ==> is_white(#[trigger] v@[j]),
        decreases to - i,
    {
        let c = v[i];
        let white = ('\u{9}' <= c && c <= '\u{d}') || c == ' ' || c == '\u{85}' || c == '\u{a0}' || c
            == '\u{1680}' || ('\u{2000}' <= c && c <= '\u{200a}') || c == '\u{2028}' || c
            == '\u{2029}' || c == '\u{202f}' || c == '\u{205f}' || c == '\u{3000}';
        if !white {
            assert(v@.subrange(from as int, to as int)[i - from] == c);
            return false;
        }
        i = i + 1;
    }
    assert forall|j: int| 0 <= j < v@.subrange(from as int, to as int).len() implies is_white(
        #[trigger] v@.subrange(from as int, to as int)[j],
    ) by {
        assert(v@.subrange(from as int, to as int)[j] == v@[from + j]);
    }
    true
}

/// `str::trim(..).is_empty()`: nothing but white space.
pub fn is_blank_text(s: &str) -> (r: bool)
    ensures
        r == blank(s@),
{
    let v = chars_of(s);
    let r = is_blank(&v, 0, v.len());
    assert(v@.subrange(0, v.len() as int) =~= v@);
    r
}

/// Bounds `[start, end)` of the first non-blank line of `v`, or `None`.
fn find_filled_line(v: &Vec<char>) -> (r: Option<(usize, usize)>)
    ensures
        match r {
            Some((a, b)) => a <= b <= v.len() && v@.subrange(a as int, b as int) == first_filled_line(
                v@,
            ),
            None => first_filled_line(v@) == Seq::<char>::empty(),
        },
{
    let mut start: usize = 0;
    assert(v@.skip(0) =~= v@);
    loop
        invariant
            start <= v.len(),
            first_filled_line(v@) == first_filled_line(v@.skip(start as int)),
        decreases v.len() - start,
    {
        let ghost rest = v@.skip(start as int);
        let mut end: usize = start;
        while end < v.len() && v[end] != '\n'
            invariant
                start <= end <= v.len(),
                forall|j: int| start <= j < end ==> v@[j] != '\n',
            decreases v.len() - end,
        {
            end = end + 1;
        }
        proof {
            lemma_line_end_bounds(rest);
            assert(line_end(rest) == end - start) by {
                if line_end(rest) < end - start {
                    assert(rest[line_end(rest)] == v@[start + line_end(rest)]);
                }
                if line_end(rest) > end - start {
                    assert(rest[end - start] == v@[end as int]);
                }
            }
            assert(rest.take(end - start) =~= v@.subrange(start as int, end as int));
        }
        if !is_blank(v, start, end) {
            return Some((start, end));
        }
        if end >= v.len() {
            return None;
        }
        assert(rest.skip(end - start + 1) =~= v@.skip(end + 1));
        start = end + 1;
    }
}

/// Counts `cand` outside quotes in `v[from..to]`.
fn count_unquoted(v: &Vec<char>, from: usize, to: usize, cand: char) -> (r: usize)
    requires
        from <= to <= v.len(),
    ensures
        r == outside_count(v@.subrange(from as int, to as int), cand),
{
    let mut quoted = false;
    let mut count: usize = 0;
    let mut i: usize = from;
    while i < to
        invariant
            from <= i <= to <= v.len(),
            count <= i - from,
            count + count_outside(v@.subrange(i as int, to as int), cand, quoted) == outside_count(
                v@.subrange(from as int, to as int),
                cand,
            ),
        decreases to - i,
    {
        let c = v[i];
        assert(v@.subrange(i as int, to as int).drop_first() =~= v@.subrange(i + 1, to as int));
        assert(v@.subrange(i as int, to as int)[0] == c);
        if c == '"' {
            quoted = !quoted;
        } else if c == cand && !quoted {
            count = count + 1;
        }
        i = i + 1;
    }
    assert(v@.subrange(to as int, to as int) =~= Seq::<char>::empty());
    count
}

/// Guesses the delimiter from the first non-blank line of `sample`.
///
/// The candidate seen most often wins, counting only outside double quotes:
/// otherwise `"Иванов, Иван";30` would give the wrong answer.
pub fn sniff_delimiter(sample: &str, ext: &str) -> (r: u8)
    ensures
        r as char == sniffed(sample@, ext@),
        r == sniffed_delim(sample@, ext@),
        r < 0x80,
{
    let e = lower_ascii(ext);
    if is_word(&chars_of(e.as_str()), "tsv") {
        return 9u8;
    }
    let v = chars_of(sample);
    let (from, to) = match find_filled_line(&v) {
        Some((a, b)) => (a, b),
        None => (0, 0),
    };
    assert(v@.subrange(from as int, to as int) == first_filled_line(sample@));
    let ghost line = first_filled_line(sample@);
    let cands: [u8; 4] = [44u8, 59u8, 9u8, 124u8];
    let mut best: u8 = 44u8;
    let mut best_count: usize = 0;
    let mut i: usize = 0;
    while i < 4
        invariant
            i <= 4,
            cands@ == seq![44u8, 59u8, 9u8, 124u8],
            from <= to <= v.len(),
            v@.subrange(from as int, to as int) == line,
            best < 0x80,
            best_from(line, 0, ',', 0) == best_from(line, i as int, best as char, best_count as nat),
        decreases 4 - i,
    {
        let cand: u8 = cands[i];
        let ch = cand as char;
        assert(candidates()[i as int] == ch);
        let n = count_unquoted(&v, from, to, ch);
        if n > best_count {
            best = cand;
            best_count = n;
        }
        i = i + 1;
    }
    best
}

/// A row padded with empty fields up to `width` (never shortened).
pub open spec fn padded(row: Seq<Seq<char>>, width: nat) -> Seq<Seq<char>> {
    if row.len() >= width {
        row
    } else {
        row + Seq::new((width - row.len()) as nat, |i: int| Seq::<char>::empty())
    }
}

/// Pads `row` with empty fields up to `width`.
pub fn pad_row(row: Vec<String>, width: usize) -> (r: Vec<String>)
    ensures
        fields_view(r) == padded(fields_view(row), width as nat),
{
    let mut r = row;
    let ghost start = fields_view(r);
    while r.len() < width
        invariant
            start.len() <= width ==> fields_view(r) == start + Seq::new(
                (r.len() - start.len()) as nat,
                |i: int| Seq::<char>::empty(),
            ),
            start.len() > width ==> fields_view(r) == start,
            r.len() >= start.len(),
            start.len() <= width ==> r.len() <= width,
        decreases width - r.len(),
    {
        let ghost before = fields_view(r);
        r.push(String::new());
        assert(fields_view(r) =~= before.push(Seq::<char>::empty()));
        assert(fields_view(r) =~= start + Seq::new(
            (r.len() - start.len()) as nat,
            |i: int| Seq::<char>::empty(),
        ));
    }
    proof {
        if start.len() <= width {
            assert(fields_view(r) =~= start + Seq::new(
                (width - start.len()) as nat,
                |i: int| Seq::<char>::empty(),
            ));
            if start.len() == width {
                assert(fields_view(r) =~= start);
            }
        }
    }
    r
}

/// The records that were read without error.
pub open spec fn good_records(s: Seq<Option<Seq<Seq<char>>>>) -> Seq<Seq<Seq<char>>>
    decreases s.len(),
{
    if s.len() == 0 {
        Seq::empty()
    } else {
        match s.last() {
            Some(r) => good_records(s.drop_last()).push(r),
            None => good_records(s.drop_last()),
        }
    }
}

/// The rows of a table, as character sequences.
pub open spec fn rows_view(rows: Vec<Vec<String>>) -> Seq<Seq<Seq<char>>> {
    rows@.map_values(|r: Vec<String>| fields_view(r))
}

/// The header text shown for a delimiter: `TAB` for a tab, the character otherwise.
pub open spec fn delimiter_label(d: char) -> Seq<char> {
    if d == '\t' {
        "TAB"@
    } else {
        seq![d]
    }
}

/// The table form of the delimited text `src` (with extension `ext`), returning
/// at most `max_rows` rows.
pub open spec fn delimited_table(src: Seq<char>, ext: Seq<char>, max_rows: usize, d: Doc) -> bool {
    let delim = sniffed_delim(src, ext);
    match csv_header(src, delim) {
        Err(m) => d matches Doc::Unsupported { ext: e, message } && e@ == ext && message@
            == "Не удалось разобрать таблицу: "@ + m,
        Ok(h) => {
            let good = good_records(csv_records(src, delim));
            &&& d matches Doc::Table { columns, rows, total_rows, truncated, delimiter }
            &&& fields_view(columns) == h
            &&& total_rows == good.len()
            &&& truncated == (good.len() > max_rows)
            &&& delimiter@ == delimiter_label(sniffed(src, ext))
            &&& rows_view(rows).len() == if good.len() < max_rows {
                good.len()
            } else {
                max_rows as nat
            }
            &&& forall|i: int|
                0 <= i < rows_view(rows).len() ==> #[trigger] rows_view(rows)[i] == padded(
                    good[i],
                    h.len(),
                )
        },
    }
}

/// A table form keeps its promises: no more rows than were counted, marked
/// truncated exactly when rows were held back, and every row at least as wide
/// as the header.
pub open spec fn table_is_consistent(d: Doc) -> bool {
    d matches Doc::Table { columns, rows, total_rows, truncated, .. } ==> {
        &&& rows@.len() <= total_rows
        &&& truncated == (rows@.len() < total_rows)
        &&& forall|i: int|
            0 <= i < rows@.len() ==> #[trigger] rows_view(rows)[i].len() >= columns@.len()
    }
}

/// A delimited text becomes a consistent table that returns at most `max_rows`
/// rows, however ragged its lines.
pub proof fn law_delimited_table_is_consistent(src: Seq<char>, ext: Seq<char>, max_rows: usize, d: Doc)
    requires
        delimited_table(src, ext, max_rows, d),
    ensures
        table_is_consistent(d),
        d matches Doc::Table { rows, .. } ==> rows@.len() <= max_rows,
{
    if let Doc::Table { columns, rows, total_rows, truncated, delimiter } = d {
        let h = fields_view(columns);
        assert(h.len() == columns@.len());
        assert forall|i: int| 0 <= i < rows@.len() implies #[trigger] rows_view(rows)[i].len()
            >= columns@.len() by {
            assert(rows_view(rows)[i] == padded(good_records(csv_records(src, sniffed_delim(src, ext)))[i], h.len()));
        }
    }
}

/// csv / tsv text → `Table`. All records are counted, but at most `max_rows` are
/// returned; short rows are padded with empty fields, so ragged files still show.
pub fn from_delimited(src: &str, ext: &str, max_rows: usize) -> (r: Doc)
    ensures
        delimited_table(src@, ext@, max_rows, r),
{
    let delim = sniff_delimiter(src, ext);
    let mut reader = open_csv(src, delim);
    let columns = match csv_headers(&mut reader) {
        Ok(h) => h,
        Err(m) => {
            let mut message = owned("Не удалось разобрать таблицу: ");
            message.append(m.as_str());
            return Doc::Unsupported { ext: owned(ext), message };
        },
    };
    let width = columns.len();
    let ghost all = csv_records(src@, delim);
    let mut rows: Vec<Vec<String>> = Vec::new();
    let mut total: usize = 0;
    loop
        invariant
            reader.source() == src@,
            reader.delim() == delim,
            all == csv_records(src@, delim),
            reader.taken() <= all.len(),
            total == good_records(all.take(reader.taken() as int)).len(),
            total <= reader.taken(),
            rows@.len() == if total < max_rows {
                total as nat
            } else {
                max_rows as nat
            },
            forall|i: int|
                0 <= i < rows_view(rows).len() ==> #[trigger] rows_view(rows)[i] == padded(
                    good_records(all.take(reader.taken() as int))[i],
                    width as nat,
                ),
        ensures
            reader.taken() == all.len(),
            total == good_records(all.take(reader.taken() as int)).len(),
            forall|i: int|
                0 <= i < rows_view(rows).len() ==> #[trigger] rows_view(rows)[i] == padded(
                    good_records(all.take(reader.taken() as int))[i],
                    width as nat,
                ),
            rows@.len() == if total < max_rows {
                total as nat
            } else {
                max_rows as nat
            },
        decreases all.len() - reader.taken(),
    {
        let ghost k: int = reader.taken() as int;
        let ghost before = rows;
        match csv_next(&mut reader) {
            None => {
                break;
            },
            Some(None) => {
                proof {
                    assert(all.take(k + 1int).drop_last() =~= all.take(k));
                }
            },
            Some(Some(fields)) => {
                proof {
                    assert(all.take(k + 1int).drop_last() =~= all.take(k));
                    lemma_good_records_len(all.take(k));
                }
                total = total + 1;
                if rows.len() < max_rows {
                    let row = pad_row(fields, width);
                    rows.push(row);
                    proof {
                        assert forall|i: int| 0 <= i < rows_view(rows).len() implies #[trigger] rows_view(
                            rows,
                        )[i] == padded(good_records(all.take(k + 1int))[i], width as nat) by {
                            if i < rows_view(before).len() {
                                assert(rows_view(rows)[i] == rows_view(before)[i]);
                            }
                        }
                    }
                }
            },
        }
    }
    proof {
        assert(all.take(all.len() as int) =~= all);
    }
    let delimiter = if delim == 9u8 {
        owned("TAB")
    } else {
        let mut d: Vec<char> = Vec::new();
        d.push(delim as char);
        string_of(&d)
    };
    Doc::Table { columns, rows, total_rows: total, truncated: total > max_rows, delimiter }
}

proof fn lemma_good_records_len(s: Seq<Option<Seq<Seq<char>>>>)
    ensures
        good_records(s).len() <= s.len(),
    decreases s.len(),
{
    if s.len() > 0 {
        lemma_good_records_len(s.drop_last());
    }
}

} // verus!
