//! Whitespace rules (MD012, MD013, MD014).
//!
//! **MD012** – No trailing whitespace, **except** exactly two trailing spaces
//!             which constitute a hard line break.  A trailing tab is never
//!             valid.
//!
//! **MD013** – No tab characters used for indentation (use spaces).
//!
//! **MD014** – No more than one consecutive blank line (blank = zero non-ws
//!             characters).

use vstd::prelude::*;

use crate::text::{
    byte_len, byte_len_from, chars_of, count_leading_ne, count_trailing_ws, decimal, decimal_of_wide, leading_ne, lines, push_str, seqs,
    split_lines, trailing_ws, trim, trim_end, trim_of,
};
use crate::{new_diagnostic, push_diagnostic, views, Diagnostic, DiagnosticView, Severity};

verus! {

/// MD013: the first tab of the line, at its column.
pub open spec fn tab_diagnostic(raw: Seq<char>, line_no: nat) -> Seq<DiagnosticView> {
    if raw.contains('\t') {
        seq![
            DiagnosticView::new(
                line_no,
                leading_ne(raw, '\t') + 1,
                "MD013"@,
                "Tab character found; use spaces for indentation"@,
                Severity::Warning,
            ),
        ]
    } else {
        seq![]
    }
}

/// The trailing whitespace is a hard line break: exactly two spaces after
/// some text.
pub open spec fn is_hard_break(raw: Seq<char>) -> bool {
    &&& trailing_ws(raw) == 2
    &&& raw.len() >= 2
    &&& raw[raw.len() - 1] == ' '
    &&& raw[raw.len() - 2] == ' '
    &&& trim_end(raw).len() > 0
}

/// MD012: trailing whitespace that is not a hard line break, reported at the
/// column where it begins, with its length in UTF-8 bytes.
pub open spec fn trailing_diagnostic(raw: Seq<char>, line_no: nat) -> Seq<DiagnosticView> {
    if raw.len() > 0 && trailing_ws(raw) > 0 && !is_hard_break(raw) {
        let kind = if raw.last() == '\t' { "tab"@ } else { "whitespace"@ };
        seq![
            DiagnosticView::new(
                line_no,
                trim_end(raw).len() + 1,
                "MD012"@,
                "Trailing "@ + kind + " ("@ + decimal(byte_len(raw.skip(trim_end(raw).len() as int)))
                    + " character(s)); remove or use exactly 2 spaces for a hard line break"@,
                Severity::Warning,
            ),
        ]
    } else {
        seq![]
    }
}

/// The line is blank: only whitespace.
pub open spec fn is_blank(raw: Seq<char>) -> bool {
    trim(raw).len() == 0
}

/// MD014 for line `line_no` when it is blank and `blanks` blank lines
/// directly precede it.
pub open spec fn blank_diagnostic(raw: Seq<char>, blanks: nat, line_no: nat) -> Seq<DiagnosticView> {
    if is_blank(raw) && blanks >= 1 {
        seq![
            DiagnosticView::new(
                line_no,
                1,
                "MD014"@,
                "More than one consecutive blank line"@,
                Severity::Warning,
            ),
        ]
    } else {
        seq![]
    }
}

/// The whitespace diagnostics of `ls[i..]`, where `blanks` blank lines
/// directly precede line `i`.
pub open spec fn whitespace_from(ls: Seq<Seq<char>>, i: int, blanks: nat) -> Seq<DiagnosticView>
    decreases ls.len() - i,
{
    if i < 0 || i >= ls.len() {
        seq![]
    } else {
        let raw = ls[i];
        let line_no = (i + 1) as nat;
        tab_diagnostic(raw, line_no) + trailing_diagnostic(raw, line_no) + blank_diagnostic(raw, blanks, line_no)
            + whitespace_from(ls, i + 1, if is_blank(raw) { blanks + 1 } else { 0 })
    }
}

/// The whitespace diagnostics of a document, given as its lines.
pub open spec fn whitespace(ls: Seq<Seq<char>>) -> Seq<DiagnosticView> {
    whitespace_from(ls, 0, 0)
}

/// Appends the whitespace diagnostics of `source` to `diags`.
pub fn check(source: &str, diags: &mut Vec<Diagnostic>)
    ensures
        views(final(diags)@) == views(old(diags)@) + whitespace(lines(source@)),
{
    let chars = chars_of(source);
    let ls = split_lines(&chars);
    check_lines(&ls, diags);
}

/// Appends the whitespace diagnostics of the lines `ls` to `diags`.
pub fn check_lines(ls: &Vec<Vec<char>>, diags: &mut Vec<Diagnostic>)
    ensures
        views(final(diags)@) == views(old(diags)@) + whitespace(seqs(ls@)),
{
    let ghost s = seqs(ls@);
    let mut consecutive_blank: usize = 0;
    let mut i: usize = 0;
    while i < ls.len()
        invariant
            s == seqs(ls@),
            i <= ls.len(),
            consecutive_blank <= i,
            views(diags@) + whitespace_from(s, i as int, consecutive_blank as nat) == views(old(diags)@)
                + whitespace(s),
        decreases ls.len() - i,
    {
        let raw = &ls[i];
        assert(raw@ == s[i as int]);
        let line_no = i + 1;
        let ghost before = views(diags@);
        let ghost blanks0 = consecutive_blank as nat;

        // MD013: tabs
        let tab_at = count_leading_ne(raw, '\t');
        if tab_at < raw.len() {
            let col = tab_at + 1;
            let mut m: Vec<char> = Vec::new();
            push_str(&mut m, "Tab character found; use spaces for indentation");
            push_diagnostic(diags, new_diagnostic(line_no, col, "MD013", &m, Severity::Warning));
        }
        let ghost after_tab = views(diags@);
        assert(after_tab =~= before + tab_diagnostic(raw@, line_no as nat));

        // MD012: trailing whitespace
        if raw.len() > 0 {
            let trailing_len = count_trailing_ws(raw);
            let kept = raw.len() - trailing_len;
            if trailing_len > 0 {
                let n = raw.len();
                let is_hard_break = trailing_len == 2 && n >= 2 && raw[n - 1] == ' ' && raw[n - 2] == ' ' && kept > 0;
                if !is_hard_break {
                    let col = kept + 1;
                    let mut m: Vec<char> = Vec::new();
                    push_str(&mut m, "Trailing ");
                    if raw[n - 1] == '\t' {
                        push_str(&mut m, "tab");
                    } else {
                        push_str(&mut m, "whitespace");
                    }
                    push_str(&mut m, " (");
                    let mut num = decimal_of_wide(byte_len_from(raw, kept));
                    m.append(&mut num);
                    push_str(&mut m, " character(s)); remove or use exactly 2 spaces for a hard line break");
                    push_diagnostic(diags, new_diagnostic(line_no, col, "MD012", &m, Severity::Warning));
                }
            }
        }
        let ghost after_trailing = views(diags@);
        assert(after_trailing =~= after_tab + trailing_diagnostic(raw@, line_no as nat));

        // MD014: consecutive blank lines
        let t = trim_of(raw);
        if t.len() == 0 {
            consecutive_blank = consecutive_blank + 1;
            if consecutive_blank > 1 {
                let mut m: Vec<char> = Vec::new();
                push_str(&mut m, "More than one consecutive blank line");
                push_diagnostic(diags, new_diagnostic(line_no, 1, "MD014", &m, Severity::Warning));
            }
        } else {
            consecutive_blank = 0;
        }
        assert(views(diags@) =~= after_trailing + blank_diagnostic(raw@, blanks0, line_no as nat));
        assert(views(diags@) + whitespace_from(s, i + 1, consecutive_blank as nat) =~= before
            + whitespace_from(s, i as int, blanks0));
        i = i + 1;
    }
    assert(views(diags@) =~= views(diags@) + whitespace_from(s, i as int, consecutive_blank as nat));
}

} // verus!
