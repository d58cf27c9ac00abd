//! Thematic-break rule (MD004).
//!
//! **MD004** – All thematic breaks in a document must use the same character
//!             (`*`, `-`, or `_`).  Mixing characters is flagged as a warning.

use vstd::prelude::*;

use crate::text::{
    chars_of, count_char, count_eq, count_leading, leading_eq, lines, push_str, seqs, split_lines,
    trim, trim_of,
};
use crate::{new_diagnostic, push_diagnostic, views, Diagnostic, DiagnosticView, Severity};

verus! {

/// The character of a thematic break line: at most three spaces of
/// indentation, then, once trimmed, three or more of one of `*`, `-`, `_`
/// with only spaces and tabs between them; `None` for other lines.
pub open spec fn spec_is_thematic_break(line: Seq<char>) -> Option<char> {
    let t = trim(line);
    if leading_eq(line, ' ') > 3 || t.len() == 0 {
        None
    } else {
        let first = t[0];
        if first != '*' && first != '-' && first != '_' {
            None
        } else if exists|j: int| 0 <= j < t.len() && #[trigger] t[j] != first && t[j] != ' ' && t[j] != '\t' {
            None
        } else if count_eq(t, first) >= 3 {
            Some(first)
        } else {
            None
        }
    }
}

/// MD004 for a break of character `found` on line `line_no` when the first
/// break of the document used `expected`.
pub open spec fn mismatch_diagnostic(expected: char, found: char, line_no: nat) -> DiagnosticView {
    DiagnosticView::new(
        line_no,
        1,
        "MD004"@,
        "Inconsistent thematic-break character: expected `"@ + seq![expected] + "`, found `"@ + seq![found]
            + "`"@,
        Severity::Warning,
    )
}

/// The MD004 diagnostics of `ls[i..]`, where `first` is the character of the
/// first thematic break before line `i`, if any.
pub open spec fn breaks_from(ls: Seq<Seq<char>>, i: int, first: Option<char>) -> Seq<DiagnosticView>
    decreases ls.len() - i,
{
    if i < 0 || i >= ls.len() {
        seq![]
    } else {
        match spec_is_thematic_break(ls[i]) {
            None => breaks_from(ls, i + 1, first),
            Some(ch) => match first {
                None => breaks_from(ls, i + 1, Some(ch)),
                Some(fc) => if fc != ch {
                    seq![mismatch_diagnostic(fc, ch, (i + 1) as nat)] + breaks_from(ls, i + 1, first)
                } else {
                    breaks_from(ls, i + 1, first)
                },
            },
        }
    }
}

/// The thematic-break diagnostics of a document, given as its lines.
pub open spec fn breaks(ls: Seq<Seq<char>>) -> Seq<DiagnosticView> {
    breaks_from(ls, 0, None)
}

/// Appends the thematic-break diagnostics of `source` to `diags`.
pub fn check(source: &str, diags: &mut Vec<Diagnostic>)
    ensures
        views(final(diags)@) == views(old(diags)@) + breaks(lines(source@)),
{
    let chars = chars_of(source);
    let ls = split_lines(&chars);
    check_lines(&ls, diags);
}

/// Appends the thematic-break diagnostics of the lines `ls` to `diags`.
pub fn check_lines(ls: &Vec<Vec<char>>, diags: &mut Vec<Diagnostic>)
    ensures
        views(final(diags)@) == views(old(diags)@) + breaks(seqs(ls@)),
{
    let ghost s = seqs(ls@);
    let mut first_char: Option<char> = None;
    let mut i: usize = 0;
    while i < ls.len()
        invariant
            s == seqs(ls@),
            i <= ls.len(),
            views(diags@) + breaks_from(s, i as int, first_char) == views(old(diags)@) + breaks(s),
        decreases ls.len() - i,
    {
        let raw = &ls[i];
        assert(raw@ == s[i as int]);
        let ghost before = views(diags@);
        let ghost first0 = first_char;
        if let Some(ch) = is_thematic_break(raw) {
            match first_char {
                None => first_char = Some(ch),
                Some(fc) => {
                    if fc != ch {
                        let mut m: Vec<char> = Vec::new();
                        push_str(&mut m, "Inconsistent thematic-break character: expected `");
                        m.push(fc);
                        push_str(&mut m, "`, found `");
                        m.push(ch);
                        push_str(&mut m, "`");
                        let d = new_diagnostic(i + 1, 1, "MD004", &m, Severity::Warning);
                        push_diagnostic(diags, d);
                        assert(m@ =~= mismatch_diagnostic(fc, ch, (i + 1) as nat).message);
                    }
                },
            }
        }
        assert(views(diags@) + breaks_from(s, i + 1, first_char) =~= before + breaks_from(
            s,
            i as int,
            first0,
        ));
        i = i + 1;
    }
    assert(views(diags@) =~= views(diags@) + breaks_from(s, i as int, first_char));
}

/// Returns the break character if the line is a valid thematic break.
fn is_thematic_break(line: &Vec<char>) -> (r: Option<char>)
    ensures
        r == spec_is_thematic_break(line@),
{
    let indent = count_leading(line, ' ');
    if indent > 3 {
        return None;
    }
    let t = trim_of(line);
    if t.len() == 0 {
        return None;
    }
    let first = t[0];
    if first != '*' && first != '-' && first != '_' {
        return None;
    }
    let mut j: usize = 0;
    while j < t.len()
        invariant
            j <= t.len(),
            t@ == trim(line@),
            leading_eq(line@, ' ') <= 3,
            t.len() > 0,
            first == t@[0],
            first == '*' || first == '-' || first == '_',
            forall|k: int| 0 <= k < j ==> #[trigger] t@[k] == first || t@[k] == ' ' || t@[k] == '\t',
        decreases t.len() - j,
    {
        let c = t[j];
        if c != first && c != ' ' && c != '\t' {
            assert(t@[j as int] != first && t@[j as int] != ' ' && t@[j as int] != '\t');
            return None;
        }
        j = j + 1;
    }
    if count_char(&t, first) >= 3 {
        Some(first)
    } else {
        None
    }
}

} // verus!
