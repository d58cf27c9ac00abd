//! Heading rules (MD001, MD002, MD003).
//!
//! **MD001** – An ATX heading's `#` sequence (one to six `#`) must be
//!             followed by a space, a tab, or the end of the line.
//!
//! **MD002** – Once a valid closing `#` sequence is stripped, the heading
//!             text must not end with an unescaped `#`.
//!
//! **MD003** – A setext underline (`===` or `---`) must be at least as long
//!             as the heading text above it.

use vstd::prelude::*;

use crate::text::{
    byte_len, byte_len_capped, byte_prefix, byte_prefix_of, chars_of, count_leading, count_trailing, decimal,
    decimal_of, ends_with, indent_col, indent_col_of, leading_eq, lemma_leading_eq_facts, lines, min, push_str,
    seqs, split_lines, starts_with, subseq, trailing_eq, trim, trim_end, trim_end_of, trim_of, trim_start,
    trim_start_of,
};
use crate::{new_diagnostic, opt_seq, opt_view, push_diagnostic, push_opt, views, Diagnostic, DiagnosticView, Severity};

verus! {

/// What std's `Debug` writes for a string slice with these characters: the
/// quoted, escaped form.
pub uninterp spec fn str_debug(s: Seq<char>) -> Seq<char>;

/// `format!("{:?}", s)` for the string slice made of these characters
/// (std's `Debug` for `str`).  The contract only names the result: it
/// depends on these characters alone, through std's escaping tables.
#[verifier::external_body]
fn debug_quoted(s: &Vec<char>) -> (r: Vec<char>)
    ensures
        r@ == str_debug(s@),
{
    let t: String = s.iter().collect();
    format!("{:?}", t.as_str()).chars().collect()
}

/// The line is all `=` or all `-`, and not empty.
pub open spec fn spec_is_setext_underline(line: Seq<char>) -> bool {
    &&& line.len() > 0
    &&& (forall|j: int| 0 <= j < line.len() ==> #[trigger] line[j] == '=')
        || (forall|j: int| 0 <= j < line.len() ==> #[trigger] line[j] == '-')
}

/// Heading content with a valid closing `#` sequence removed: the trailing
/// `#` run goes when it is the whole content, or when a space or tab
/// precedes it (taking that whitespace with it).
pub open spec fn spec_strip_atx_closing(content: Seq<char>) -> Seq<char> {
    let t = trim_end(content);
    let h = trailing_eq(t, '#');
    if h == 0 {
        content
    } else if h == t.len() {
        seq![]
    } else {
        let before = t.take(t.len() - h);
        if ends_with(before, ' ') || ends_with(before, '\t') {
            trim_end(before)
        } else {
            content
        }
    }
}

/// The part of an ATX line after its leading `#` run.
pub open spec fn atx_after(raw: Seq<char>) -> Seq<char> {
    let trimmed = trim_start(raw);
    trimmed.skip(leading_eq(trimmed, '#') as int)
}

/// The line opens with one to six `#` that are followed by something other
/// than a space or a tab.
pub open spec fn md001_fires(raw: Seq<char>) -> bool {
    let trimmed = trim_start(raw);
    let after = atx_after(raw);
    &&& starts_with(trimmed, '#')
    &&& leading_eq(trimmed, '#') <= 6
    &&& after.len() > 0
    &&& after[0] != ' '
    &&& after[0] != '\t'
}

/// The bytes of `after` that the MD001 message quotes: at most four.
pub open spec fn md001_excerpt_len(raw: Seq<char>) -> nat {
    min(byte_len(atx_after(raw)), 4)
}

/// Where MD001 fires, its quoted excerpt ends between two characters (the
/// message is cut out of the line at that byte).
pub open spec fn md001_excerpt_ok(raw: Seq<char>) -> bool {
    md001_fires(raw) ==> byte_prefix(atx_after(raw), md001_excerpt_len(raw)) is Some
}

/// The diagnostic for a line whose trimmed form begins with `#`.
pub open spec fn atx_diagnostic(raw: Seq<char>, line_no: nat) -> Option<DiagnosticView> {
    let trimmed = trim_start(raw);
    let after = atx_after(raw);
    if leading_eq(trimmed, '#') > 6 {
        None
    } else if md001_fires(raw) {
        Some(
            DiagnosticView::new(
                line_no,
                indent_col(raw),
                "MD001"@,
                "ATX heading `#` must be followed by a space (got "@ + str_debug(
                    byte_prefix(after, md001_excerpt_len(raw)).unwrap(),
                ) + ")"@,
                Severity::Error,
            ),
        )
    } else {
        let content = spec_strip_atx_closing(trim(after));
        if ends_with(content, '#') && !(content.len() >= 2 && content[content.len() - 2] == '\\') {
            Some(
                DiagnosticView::new(
                    line_no,
                    indent_col(raw),
                    "MD002"@,
                    "ATX heading text ends with `#`; add a space before any trailing `#` to make it a closing sequence"@,
                    Severity::Warning,
                ),
            )
        } else {
            None
        }
    }
}

/// The MD003 diagnostic for a setext heading whose text is `raw` and whose
/// underline (with trailing whitespace removed) is `next`, on line `line_no`.
pub open spec fn setext_diagnostic(raw: Seq<char>, next: Seq<char>, line_no: nat) -> Seq<DiagnosticView> {
    let text_len = trim(raw).len();
    let underline_len = trim(next).len();
    if underline_len < text_len {
        seq![
            DiagnosticView::new(
                line_no,
                1,
                "MD003"@,
                "Setext heading underline ("@ + decimal(underline_len) + " chars) is shorter than heading text ("@
                    + decimal(text_len) + " chars)"@,
                Severity::Warning,
            ),
        ]
    } else {
        seq![]
    }
}

/// The heading diagnostics of `ls[i..]`, scanning from line `i`: a line
/// whose trimmed form begins with `#` is an ATX line; otherwise a non-blank
/// line followed by an underline is a setext heading, and the scan resumes
/// after the underline.
pub open spec fn headings_from(ls: Seq<Seq<char>>, i: int) -> Seq<DiagnosticView>
    decreases ls.len() - i,
{
    if i < 0 || i >= ls.len() {
        seq![]
    } else {
        let raw = ls[i];
        let trimmed = trim_start(raw);
        if starts_with(trimmed, '#') {
            opt_seq(atx_diagnostic(raw, (i + 1) as nat)) + headings_from(ls, i + 1)
        } else if i + 1 < ls.len() && spec_is_setext_underline(trim_end(ls[i + 1])) && trimmed.len() > 0 {
            setext_diagnostic(raw, trim_end(ls[i + 1]), (i + 2) as nat) + headings_from(ls, i + 2)
        } else {
            headings_from(ls, i + 1)
        }
    }
}

/// The heading diagnostics of a document, given as its lines.
pub open spec fn headings(ls: Seq<Seq<char>>) -> Seq<DiagnosticView> {
    headings_from(ls, 0)
}

/// Every line's MD001 excerpt can be cut out.
pub open spec fn excerpts_ok(ls: Seq<Seq<char>>) -> bool {
    forall|i: int| 0 <= i < ls.len() ==> md001_excerpt_ok(#[trigger] ls[i])
}

/// Appends the heading diagnostics of `source` to `diags`.
pub fn check(source: &str, diags: &mut Vec<Diagnostic>)
    requires
        excerpts_ok(lines(source@)),
    ensures
        views(final(diags)@) == views(old(diags)@) + headings(lines(source@)),
{
    let chars = chars_of(source);
    let ls = split_lines(&chars);
    check_lines(&ls, diags);
}

/// Appends the heading diagnostics of the lines `ls` to `diags`.
pub fn check_lines(ls: &Vec<Vec<char>>, diags: &mut Vec<Diagnostic>)
    requires
        excerpts_ok(seqs(ls@)),
    ensures
        views(final(diags)@) == views(old(diags)@) + headings(seqs(ls@)),
{
    let ghost s = seqs(ls@);
    let mut i: usize = 0;
    while i < ls.len()
        invariant
            s == seqs(ls@),
            excerpts_ok(s),
            i <= ls.len(),
            views(diags@) + headings_from(s, i as int) == views(old(diags)@) + headings(s),
        decreases ls.len() - i,
    {
        let raw = &ls[i];
        assert(raw@ == s[i as int]);
        let trimmed = trim_start_of(raw);
        let ghost before = views(diags@);
        if trimmed.len() > 0 && trimmed[0] == '#' {
            let d = atx_heading(raw, i + 1);
            push_opt(diags, d);
            assert(views(diags@) + headings_from(s, i + 1) =~= before + headings_from(s, i as int));
            i = i + 1;
            continue;
        }
        if i + 1 < ls.len() {
            let next = trim_end_of(&ls[i + 1]);
            assert(ls[i + 1 as int]@ == s[i + 1]);
            if is_setext_underline(&next) && trimmed.len() > 0 {
                let text_len = trim_of(raw).len();
                let underline_len = trim_of(&next).len();
                if underline_len < text_len {
                    let mut m: Vec<char> = Vec::new();
                    push_str(&mut m, "Setext heading underline (");
                    let mut u = decimal_of(underline_len);
                    m.append(&mut u);
                    push_str(&mut m, " chars) is shorter than heading text (");
                    let mut t = decimal_of(text_len);
                    m.append(&mut t);
                    push_str(&mut m, " chars)");
                    let d = new_diagnostic(i + 2, 1, "MD003", &m, Severity::Warning);
                    push_diagnostic(diags, d);
                }
                assert(views(diags@) + headings_from(s, i + 2) =~= before + headings_from(s, i as int));
                i = i + 2;
                continue;
            }
        }
        i = i + 1;
    }
    assert(views(diags@) =~= views(diags@) + headings_from(s, i as int));
}

/// The MD001 / MD002 diagnostic for an ATX line.
fn atx_heading(raw: &Vec<char>, line_no: usize) -> (r: Option<Diagnostic>)
    requires
        starts_with(trim_start(raw@), '#'),
        md001_excerpt_ok(raw@),
    ensures
        opt_view(r) == atx_diagnostic(raw@, line_no as nat),
{
    let trimmed = trim_start_of(raw);
    let hashes = count_leading(&trimmed, '#');
    if hashes > 6 {
        return None;
    }
    let after = subseq(&trimmed, hashes, trimmed.len());
    assert(after@ =~= atx_after(raw@));
    let col = indent_col_of(raw);
    if after.len() > 0 && after[0] != ' ' && after[0] != '\t' {
        let n = byte_len_capped(&after, 4);
        let excerpt = byte_prefix_of(&after, n).unwrap();
        let quoted = debug_quoted(&excerpt);
        let m = md001_message(&quoted);
        return Some(new_diagnostic(line_no, col, "MD001", &m, Severity::Error));
    }
    let trimmed_after = trim_of(&after);
    let content = strip_atx_closing(&trimmed_after);
    let n = content.len();
    if n > 0 && content[n - 1] == '#' && !(n >= 2 && content[n - 2] == '\\') {
        let mut m: Vec<char> = Vec::new();
        push_str(
            &mut m,
            "ATX heading text ends with `#`; add a space before any trailing `#` to make it a closing sequence",
        );
        return Some(new_diagnostic(line_no, col, "MD002", &m, Severity::Warning));
    }
    None
}

/// The MD001 message around the quoted excerpt of what follows the `#`s.
pub fn md001_message(quoted: &Vec<char>) -> (r: Vec<char>)
    ensures
        r@ == "ATX heading `#` must be followed by a space (got "@ + quoted@ + ")"@,
{
    let mut m: Vec<char> = Vec::new();
    push_str(&mut m, "ATX heading `#` must be followed by a space (got ");
    let mut q = subseq(quoted, 0, quoted.len());
    m.append(&mut q);
    push_str(&mut m, ")");
    m
}

/// Whether the MD001 excerpt of the line, if MD001 fires on it, can be cut
/// out of it.
pub fn md001_excerpt_fits(raw: &Vec<char>) -> (r: bool)
    ensures
        r == md001_excerpt_ok(raw@),
{
    let trimmed = trim_start_of(raw);
    if !(trimmed.len() > 0 && trimmed[0] == '#') {
        return true;
    }
    let hashes = count_leading(&trimmed, '#');
    if hashes > 6 {
        return true;
    }
    let after = subseq(&trimmed, hashes, trimmed.len());
    assert(after@ =~= atx_after(raw@));
    if !(after.len() > 0 && after[0] != ' ' && after[0] != '\t') {
        return true;
    }
    let n = byte_len_capped(&after, 4);
    byte_prefix_of(&after, n).is_some()
}

/// Strips a valid ATX closing `#` sequence from the end of heading content.
fn strip_atx_closing(content: &Vec<char>) -> (r: Vec<char>)
    ensures
        r@ == spec_strip_atx_closing(content@),
{
    let t = trim_end_of(content);
    let h = count_trailing(&t, '#');
    if h == 0 {
        return subseq(content, 0, content.len());
    }
    if h == t.len() {
        return Vec::new();
    }
    let before = subseq(&t, 0, t.len() - h);
    let k = before.len();
    if k > 0 && (before[k - 1] == ' ' || before[k - 1] == '\t') {
        trim_end_of(&before)
    } else {
        subseq(content, 0, content.len())
    }
}

/// Whether the line is a setext underline.
fn is_setext_underline(line: &Vec<char>) -> (r: bool)
    ensures
        r == spec_is_setext_underline(line@),
{
    if line.len() == 0 {
        return false;
    }
    let all_eq = count_leading(line, '=') == line.len();
    let all_dash = count_leading(line, '-') == line.len();
    proof {
        lemma_leading_eq_facts(line@, '=');
        lemma_leading_eq_facts(line@, '-');
    }
    all_eq || all_dash
}

} // verus!
