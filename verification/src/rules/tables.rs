//! Table rules (MD010, MD011).
//!
//! **MD010** – A GFM table must have a header-separator row on line 2.
//!             The separator must consist of cells with at least one `-`,
//!             optionally surrounded by colons, and as many cells as the
//!             header.
//!
//! **MD011** – All rows in a table must have the same number of pipe-delimited
//!             columns as the header row.

use vstd::prelude::*;

use crate::rules::{fence_close, fence_open, spec_fence_close, spec_fence_open};
use crate::text::{
    chars_of, contains_char, decimal, decimal_of, ends_with, leading_ne, lemma_leading_ne, lines, push_str, seqs,
    split_lines, starts_with, subseq, trim, trim_of, trim_start, trim_start_of,
};
use crate::{new_diagnostic, push_diagnostic, views, Diagnostic, DiagnosticView, Severity};

verus! {

/// `s` without one leading `c`, if it begins with one (`str::strip_prefix`
/// falling back to `s`).
pub open spec fn strip_prefix_char(s: Seq<char>, c: char) -> Seq<char> {
    if starts_with(s, c) { s.drop_first() } else { s }
}

/// `s` without one trailing `c`, if it ends with one.
pub open spec fn strip_suffix_char(s: Seq<char>, c: char) -> Seq<char> {
    if ends_with(s, c) { s.drop_last() } else { s }
}

/// `str::split`: the pieces of `s` between occurrences of `sep` (always at
/// least one piece).
pub open spec fn split_on(s: Seq<char>, sep: char) -> Seq<Seq<char>>
    decreases s.len(),
{
    let k = leading_ne(s, sep) as int;
    if k >= s.len() {
        seq![s]
    } else {
        seq![s.take(k)] + split_on(s.skip(k + 1), sep)
    }
}

/// The line holds a `|` once trimmed.
pub open spec fn spec_looks_like_table_row(line: Seq<char>) -> bool {
    trim(line).contains('|') && trim(line).len() > 0
}

/// The cells of a row: trimmed, without one leading and one trailing `|`,
/// split at each `|`.
pub open spec fn spec_split_table_cells(row: Seq<char>) -> Seq<Seq<char>> {
    split_on(strip_suffix_char(strip_prefix_char(trim(row), '|'), '|'), '|')
}

/// Number of pipe-delimited cells of a row, blank ones included.
pub open spec fn spec_col_count(row: Seq<char>) -> nat {
    spec_split_table_cells(row).len()
}

/// A separator cell: once trimmed, one or more dashes with an optional colon
/// at either end (`\s*:?-+:?\s*`).
pub open spec fn separator_cell(cell: Seq<char>) -> bool {
    let d = strip_suffix_char(strip_prefix_char(trim(cell), ':'), ':');
    d.len() > 0 && forall|j: int| 0 <= j < d.len() ==> #[trigger] d[j] == '-'
}

/// A header-separator row: it holds a `|` and every cell is a separator cell.
pub open spec fn spec_is_separator_row(line: Seq<char>) -> bool {
    let t = trim(line);
    let cells = spec_split_table_cells(t);
    &&& t.contains('|')
    &&& cells.len() > 0
    &&& forall|k: int| 0 <= k < cells.len() ==> separator_cell(#[trigger] cells[k])
}

/// Where the table scanner stands before a line.
pub enum TableScan {
    /// Outside tables and fences.
    Text,
    /// Inside a fenced block opened with `len` times `ch`.
    Fence { ch: char, len: nat },
    /// In the body of a table whose header has `header_cols` columns.
    Body { header_cols: nat },
}

/// MD010 for a separator row on line `line_no` whose column count differs
/// from the header's.
pub open spec fn separator_count_diagnostic(sep_cols: nat, header_cols: nat, line_no: nat) -> Seq<DiagnosticView> {
    if sep_cols != header_cols {
        seq![
            DiagnosticView::new(
                line_no,
                1,
                "MD010"@,
                "Table separator has "@ + decimal(sep_cols) + " column(s) but header has "@ + decimal(header_cols),
                Severity::Error,
            ),
        ]
    } else {
        seq![]
    }
}

/// MD010 for a header row on line `line_no` that no separator follows.
pub open spec fn missing_separator_diagnostic(line_no: nat) -> DiagnosticView {
    DiagnosticView::new(
        line_no,
        1,
        "MD010"@,
        "GFM table header must be followed by a separator row (e.g. `| --- |`)"@,
        Severity::Error,
    )
}

/// MD011 for a body row on line `line_no` whose column count differs from
/// the header's.
pub open spec fn row_count_diagnostic(body_cols: nat, header_cols: nat, line_no: nat) -> Seq<DiagnosticView> {
    if body_cols != header_cols {
        seq![
            DiagnosticView::new(
                line_no,
                1,
                "MD011"@,
                "Table row has "@ + decimal(body_cols) + " column(s) but header has "@ + decimal(header_cols),
                Severity::Warning,
            ),
        ]
    } else {
        seq![]
    }
}

/// The table diagnostics of `ls[i..]`, with the scanner in state `st`
/// before line `i`.  Fenced blocks are skipped; a row followed by a
/// separator opens a table whose body runs over the following rows, and the
/// first line after the body is scanned afresh.
pub open spec fn tables_from(ls: Seq<Seq<char>>, i: int, st: TableScan) -> Seq<DiagnosticView>
    decreases ls.len() - i, if st is Body { 1int } else { 0int },
{
    if i < 0 || i >= ls.len() {
        seq![]
    } else {
        match st {
            TableScan::Fence { ch, len } => if spec_fence_close(trim_start(ls[i]), ch, len) {
                tables_from(ls, i + 1, TableScan::Text)
            } else {
                tables_from(ls, i + 1, st)
            },
            TableScan::Body { header_cols } => if spec_looks_like_table_row(ls[i]) {
                row_count_diagnostic(spec_col_count(ls[i]), header_cols, (i + 1) as nat) + tables_from(ls, i + 1, st)
            } else {
                tables_from(ls, i, TableScan::Text)
            },
            TableScan::Text => match spec_fence_open(trim_start(ls[i])) {
                Some((ch, len)) => tables_from(ls, i + 1, TableScan::Fence { ch, len }),
                None => if spec_looks_like_table_row(ls[i]) && i + 1 < ls.len() {
                    if spec_is_separator_row(ls[i + 1]) {
                        let header_cols = spec_col_count(ls[i]);
                        separator_count_diagnostic(spec_col_count(ls[i + 1]), header_cols, (i + 2) as nat)
                            + tables_from(ls, i + 2, TableScan::Body { header_cols })
                    } else {
                        seq![missing_separator_diagnostic((i + 1) as nat)] + tables_from(ls, i + 1, TableScan::Text)
                    }
                } else {
                    tables_from(ls, i + 1, TableScan::Text)
                },
            },
        }
    }
}

/// The table diagnostics of a document, given as its lines.
pub open spec fn tables(ls: Seq<Seq<char>>) -> Seq<DiagnosticView> {
    tables_from(ls, 0, TableScan::Text)
}

/// Appends the table diagnostics of `source` to `diags`.
pub fn check(source: &str, diags: &mut Vec<Diagnostic>)
    ensures
        views(final(diags)@) == views(old(diags)@) + tables(lines(source@)),
{
    let chars = chars_of(source);
    let ls = split_lines(&chars);
    check_lines(&ls, diags);
}

/// Appends the table diagnostics of the lines `ls` to `diags`.
pub fn check_lines(ls: &Vec<Vec<char>>, diags: &mut Vec<Diagnostic>)
    ensures
        views(final(diags)@) == views(old(diags)@) + tables(seqs(ls@)),
{
    let ghost s = seqs(ls@);
    let mut i: usize = 0;
    let mut in_fence = false;
    let mut fence_char = ' ';
    let mut fence_len: usize = 0;
    while i < ls.len()
        invariant
            s == seqs(ls@),
            i <= ls.len(),
            views(diags@) + tables_from(
                s,
                i as int,
                if in_fence {
                    TableScan::Fence { ch: fence_char, len: fence_len as nat }
                } else {
                    TableScan::Text
                },
            ) == views(old(diags)@) + tables(s),
        decreases ls.len() - i,
    {
        let raw = &ls[i];
        assert(raw@ == s[i as int]);
        let ghost before = views(diags@);
        let trimmed = trim_start_of(raw);

        // Track fenced code blocks to skip their contents
        if !in_fence {
            if let Some((fc, fl)) = fence_open(&trimmed) {
                in_fence = true;
                fence_char = fc;
                fence_len = fl;
                i = i + 1;
                continue;
            }
        } else {
            if fence_close(&trimmed, fence_char, fence_len) {
                in_fence = false;
            }
            i = i + 1;
            continue;
        }

        // A table starts with a pipe-delimited header row.
        if looks_like_table_row(raw) && i + 1 < ls.len() {
            let separator = &ls[i + 1];
            assert(separator@ == s[i + 1]);
            if is_separator_row(separator) {
                let header_cols = col_count(raw);
                let sep_cols = col_count(separator);
                if sep_cols != header_cols {
                    let mut m: Vec<char> = Vec::new();
                    push_str(&mut m, "Table separator has ");
                    let mut a = decimal_of(sep_cols);
                    m.append(&mut a);
                    push_str(&mut m, " column(s) but header has ");
                    let mut b = decimal_of(header_cols);
                    m.append(&mut b);
                    push_diagnostic(diags, new_diagnostic(i + 2, 1, "MD010", &m, Severity::Error));
                }
                let ghost st = TableScan::Body { header_cols: header_cols as nat };
                assert(views(diags@) + tables_from(s, i + 2, st) =~= before + tables_from(
                    s,
                    i as int,
                    TableScan::Text,
                ));

                // MD011: validate body rows
                let mut j = i + 2;
                while j < ls.len()
                    invariant_except_break
                        views(diags@) + tables_from(s, j as int, st) == views(old(diags)@) + tables(s),
                    invariant
                        s == seqs(ls@),
                        i + 2 <= j <= ls.len(),
                        st == (TableScan::Body { header_cols: header_cols as nat }),
                    ensures
                        views(diags@) + tables_from(s, j as int, TableScan::Text) == views(old(diags)@) + tables(s),
                    decreases ls.len() - j,
                {
                    let body_row = &ls[j];
                    assert(body_row@ == s[j as int]);
                    let ghost before_row = views(diags@);
                    if !looks_like_table_row(body_row) {
                        break;
                    }
                    let body_cols = col_count(body_row);
                    if body_cols != header_cols {
                        let mut m: Vec<char> = Vec::new();
                        push_str(&mut m, "Table row has ");
                        let mut a = decimal_of(body_cols);
                        m.append(&mut a);
                        push_str(&mut m, " column(s) but header has ");
                        let mut b = decimal_of(header_cols);
                        m.append(&mut b);
                        push_diagnostic(diags, new_diagnostic(j + 1, 1, "MD011", &m, Severity::Warning));
                    }
                    assert(views(diags@) + tables_from(s, j + 1, st) =~= before_row + tables_from(s, j as int, st));
                    j = j + 1;
                }
                i = j;
                continue;
            } else {
                let mut m: Vec<char> = Vec::new();
                push_str(&mut m, "GFM table header must be followed by a separator row (e.g. `| --- |`)");
                push_diagnostic(diags, new_diagnostic(i + 1, 1, "MD010", &m, Severity::Error));
            }
        }
        assert(views(diags@) + tables_from(s, i + 1, TableScan::Text) =~= before + tables_from(
            s,
            i as int,
            TableScan::Text,
        ));
        i = i + 1;
    }
    assert(views(diags@) =~= views(diags@) + tables_from(
        s,
        i as int,
        if in_fence {
            TableScan::Fence { ch: fence_char, len: fence_len as nat }
        } else {
            TableScan::Text
        },
    ));
}

/// Whether the line holds a `|`.
fn looks_like_table_row(line: &Vec<char>) -> (r: bool)
    ensures
        r == spec_looks_like_table_row(line@),
{
    let t = trim_of(line);
    contains_char(&t, '|') && t.len() > 0
}

/// Whether the line is a valid GFM table separator row.
fn is_separator_row(line: &Vec<char>) -> (r: bool)
    ensures
        r == spec_is_separator_row(line@),
{
    let t = trim_of(line);
    if !contains_char(&t, '|') {
        return false;
    }
    let cells = split_table_cells(&t);
    if cells.len() == 0 {
        return false;
    }
    let ghost cs = seqs(cells@);
    let mut k: usize = 0;
    while k < cells.len()
        invariant
            k <= cells.len(),
            cs == seqs(cells@),
            cs == spec_split_table_cells(trim(line@)),
            cells.len() > 0,
            trim(line@).contains('|'),
            forall|m: int| 0 <= m < k ==> separator_cell(#[trigger] cs[m]),
        decreases cells.len() - k,
    {
        assert(cells[k as int]@ == cs[k as int]);
        if !is_separator_cell(&cells[k]) {
            return false;
        }
        k = k + 1;
    }
    true
}

/// Whether a cell is a separator cell.
fn is_separator_cell(cell: &Vec<char>) -> (r: bool)
    ensures
        r == separator_cell(cell@),
{
    let c = trim_of(cell);
    let c1 = strip_prefix(&c, ':');
    let d = strip_suffix(&c1, ':');
    if d.len() == 0 {
        return false;
    }
    let mut j: usize = 0;
    while j < d.len()
        invariant
            j <= d.len(),
            d.len() > 0,
            d@ == strip_suffix_char(strip_prefix_char(trim(cell@), ':'), ':'),
            forall|m: int| 0 <= m < j ==> #[trigger] d@[m] == '-',
        decreases d.len() - j,
    {
        if d[j] != '-' {
            assert(d@[j as int] != '-');
            return false;
        }
        j = j + 1;
    }
    true
}

/// `s` without one leading `c`.
fn strip_prefix(s: &Vec<char>, c: char) -> (r: Vec<char>)
    ensures
        r@ == strip_prefix_char(s@, c),
{
    if s.len() > 0 && s[0] == c {
        let r = subseq(s, 1, s.len());
        assert(r@ =~= s@.drop_first());
        r
    } else {
        subseq(s, 0, s.len())
    }
}

/// `s` without one trailing `c`.
fn strip_suffix(s: &Vec<char>, c: char) -> (r: Vec<char>)
    ensures
        r@ == strip_suffix_char(s@, c),
{
    if s.len() > 0 && s[s.len() - 1] == c {
        subseq(s, 0, s.len() - 1)
    } else {
        subseq(s, 0, s.len())
    }
}

/// Splits `s` at each `sep`.
fn split_chars(s: &Vec<char>, sep: char) -> (r: Vec<Vec<char>>)
    ensures
        seqs(r@) == split_on(s@, sep),
{
    let mut r: Vec<Vec<char>> = Vec::new();
    let mut start: usize = 0;
    let mut i: usize = 0;
    assert(s@.skip(0) =~= s@);
    assert(seqs(r@) + split_on(s@.skip(0), sep) =~= split_on(s@, sep));
    while i < s.len()
        invariant
            start <= i <= s.len(),
            forall|j: int| start <= j < i ==> #[trigger] s@[j] != sep,
            seqs(r@) + split_on(s@.skip(start as int), sep) == split_on(s@, sep),
        decreases s.len() - i,
    {
        if s[i] == sep {
            let ghost t = s@.skip(start as int);
            proof {
                assert forall|j: int| 0 <= j < i - start implies #[trigger] t[j] != sep by {
                    assert(t[j] == s@[start + j]);
                }
                lemma_leading_ne(t, sep, i - start);
                assert(t.take(i - start) =~= s@.subrange(start as int, i as int));
                assert(t.skip(i - start + 1) =~= s@.skip(i + 1));
            }
            let piece = subseq(s, start, i);
            let ghost old_r = r@;
            r.push(piece);
            proof {
                assert(seqs(r@) =~= seqs(old_r).push(piece@));
                assert(seqs(r@) + split_on(s@.skip(i + 1), sep) =~= seqs(old_r) + split_on(t, sep));
            }
            start = i + 1;
        }
        i = i + 1;
    }
    let ghost t = s@.skip(start as int);
    proof {
        assert forall|j: int| 0 <= j < t.len() implies #[trigger] t[j] != sep by {
            assert(t[j] == s@[start + j]);
        }
        lemma_leading_ne(t, sep, t.len() as int);
    }
    let piece = subseq(s, start, s.len());
    let ghost old_r = r@;
    r.push(piece);
    proof {
        assert(piece@ =~= t);
        assert(seqs(r@) =~= seqs(old_r).push(piece@));
        assert(seqs(r@) =~= seqs(old_r) + split_on(t, sep));
    }
    r
}

/// Splits a table row by `|`, handling leading/trailing pipes.
fn split_table_cells(row: &Vec<char>) -> (r: Vec<Vec<char>>)
    ensures
        seqs(r@) == spec_split_table_cells(row@),
{
    let t = trim_of(row);
    let a = strip_prefix(&t, '|');
    let b = strip_suffix(&a, '|');
    split_chars(&b, '|')
}

/// Counts the pipe-delimited cells of a table row.
fn col_count(row: &Vec<char>) -> (r: usize)
    ensures
        r == spec_col_count(row@),
{
    let cells = split_table_cells(row);
    cells.len()
}

} // verus!
