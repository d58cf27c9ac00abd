//! Code-fence rules (MD005, MD006).
//!
//! **MD005** – Every opening fence must have a matching closing fence.
//!             An unclosed fenced code block is an error.
//!
//! **MD006** – The closing fence must not carry an info string.

use vstd::prelude::*;

use crate::text::{
    chars_of, count_leading, lemma_leading_eq_facts, leading_eq, lines, push_str,
    seqs, split_lines, subseq, trim, trim_of,
};
use crate::{new_diagnostic, push_diagnostic, views, Diagnostic, DiagnosticView, Severity};

verus! {

/// A fence found on a line: its character, its length and its indentation.
pub struct Fence {
    pub ch: char,
    pub len: nat,
    pub indent: nat,
}

/// A fence line: at most three spaces, then three or more backticks or
/// tildes; `None` for other lines.  The info string is not examined.
pub open spec fn fence_candidate(line: Seq<char>) -> Option<Fence> {
    let indent = leading_eq(line, ' ');
    let rest = line.skip(indent as int);
    if indent > 3 || rest.len() == 0 || (rest[0] != '`' && rest[0] != '~') {
        None
    } else if leading_eq(rest, rest[0]) < 3 {
        None
    } else {
        Some(Fence { ch: rest[0], len: leading_eq(rest, rest[0]), indent })
    }
}

/// An opening fence: a fence line whose info string, for a backtick fence,
/// holds no backtick.
pub open spec fn spec_opening_fence(line: Seq<char>) -> Option<Fence> {
    match fence_candidate(line) {
        Some(f) => {
            let rest = line.skip(f.indent as int);
            if f.ch == '`' && trim(rest.skip(f.len as int)).contains('`') {
                None
            } else {
                Some(f)
            }
        },
        None => None,
    }
}

/// The line closes a block opened by `open`: a fence line of the same
/// character, at least as long, indented at most three more spaces.
pub open spec fn closes(line: Seq<char>, open: Fence) -> bool {
    match fence_candidate(line) {
        Some(c) => c.ch == open.ch && c.len >= open.len && c.indent <= open.indent + 3,
        None => false,
    }
}

/// MD006 for a closing fence `line` on line `line_no`: what follows the
/// fence characters, once trimmed, must be empty.
pub open spec fn info_string_diagnostic(line: Seq<char>, ch: char, line_no: nat) -> Seq<DiagnosticView> {
    let t = trim(line);
    let rest = trim(t.skip(leading_eq(t, ch) as int));
    if rest.len() > 0 {
        seq![
            DiagnosticView::new(
                line_no,
                1,
                "MD006"@,
                "Closing code fence must not have an info string"@,
                Severity::Error,
            ),
        ]
    } else {
        seq![]
    }
}

/// MD005 for a block opened with `open` on line `line_no` that never closes.
pub open spec fn unclosed_diagnostic(open: Fence, line_no: nat) -> DiagnosticView {
    DiagnosticView::new(
        line_no,
        1,
        "MD005"@,
        "Unclosed fenced code block (opened with `"@ + Seq::new(open.len, |_i: int| open.ch) + "`)"@,
        Severity::Error,
    )
}

/// The fence diagnostics of `ls[i..]`; `open` is the block open at line `i`
/// with the line number of its opening fence, if any.
pub open spec fn fences_from(ls: Seq<Seq<char>>, i: int, open: Option<(Fence, nat)>) -> Seq<DiagnosticView>
    decreases ls.len() - i,
{
    if i < 0 || i >= ls.len() {
        match open {
            Some((f, open_line)) => seq![unclosed_diagnostic(f, open_line)],
            None => seq![],
        }
    } else {
        match open {
            None => match spec_opening_fence(ls[i]) {
                Some(f) => fences_from(ls, i + 1, Some((f, (i + 1) as nat))),
                None => fences_from(ls, i + 1, None),
            },
            Some((f, open_line)) => if closes(ls[i], f) {
                info_string_diagnostic(ls[i], f.ch, (i + 1) as nat) + fences_from(ls, i + 1, None)
            } else {
                fences_from(ls, i + 1, open)
            },
        }
    }
}

/// The fence diagnostics of a document, given as its lines.
pub open spec fn fences(ls: Seq<Seq<char>>) -> Seq<DiagnosticView> {
    fences_from(ls, 0, None)
}

/// Appends the code-fence diagnostics of `source` to `diags`.
pub fn check(source: &str, diags: &mut Vec<Diagnostic>)
    ensures
        views(final(diags)@) == views(old(diags)@) + fences(lines(source@)),
{
    let chars = chars_of(source);
    let ls = split_lines(&chars);
    check_lines(&ls, diags);
}

/// Appends the code-fence diagnostics of the lines `ls` to `diags`.
pub fn check_lines(ls: &Vec<Vec<char>>, diags: &mut Vec<Diagnostic>)
    ensures
        views(final(diags)@) == views(old(diags)@) + fences(seqs(ls@)),
{
    let ghost s = seqs(ls@);
    let mut i: usize = 0;
    while i < ls.len()
        invariant
            s == seqs(ls@),
            i <= ls.len(),
            views(diags@) + fences_from(s, i as int, None) == views(old(diags)@) + fences(s),
        decreases ls.len() - i,
    {
        let raw = &ls[i];
        assert(raw@ == s[i as int]);
        let ghost before = views(diags@);
        if let Some((fence_char, fence_len, indent)) = opening_fence(raw) {
            let ghost f = Fence { ch: fence_char, len: fence_len as nat, indent: indent as nat };
            let open_line = i + 1;
            i = i + 1;
            let mut closed = false;
            while i < ls.len()
                invariant_except_break
                    !closed,
                    views(diags@) == before,
                    before + fences_from(s, i as int, Some((f, open_line as nat))) == views(old(diags)@) + fences(s),
                invariant
                    s == seqs(ls@),
                    open_line <= i <= ls.len(),
                    f == (Fence { ch: fence_char, len: fence_len as nat, indent: indent as nat }),
                    indent <= 3,
                ensures
                    closed ==> views(diags@) + fences_from(s, i as int, None) == views(old(diags)@) + fences(s),
                    !closed ==> i == ls.len() && views(diags@) == before && before + fences_from(
                        s,
                        i as int,
                        Some((f, open_line as nat)),
                    ) == views(old(diags)@) + fences(s),
                decreases ls.len() - i,
            {
                let inner = &ls[i];
                assert(inner@ == s[i as int]);
                if let Some((cc, cl, ci)) = closing_fence_candidate(inner) {
                    if cc == fence_char && cl >= fence_len && ci <= indent + 3 {
                        let t = trim_of(inner);
                        let k = count_leading(&t, fence_char);
                        let rest = trim_of(&subseq(&t, k, t.len()));
                        if rest.len() > 0 {
                            let mut m: Vec<char> = Vec::new();
                            push_str(&mut m, "Closing code fence must not have an info string");
                            let d = new_diagnostic(i + 1, 1, "MD006", &m, Severity::Error);
                            push_diagnostic(diags, d);
                        }
                        assert(views(diags@) + fences_from(s, i + 1, None) =~= before + fences_from(
                            s,
                            i as int,
                            Some((f, open_line as nat)),
                        ));
                        closed = true;
                        i = i + 1;
                        break;
                    }
                }
                i = i + 1;
            }
            if !closed {
                let mut m: Vec<char> = Vec::new();
                push_str(&mut m, "Unclosed fenced code block (opened with `");
                let mut j: usize = 0;
                let ghost m0 = m@;
                while j < fence_len
                    invariant
                        j <= fence_len,
                        m@ == m0 + Seq::new(j as nat, |_i: int| fence_char),
                    decreases fence_len - j,
                {
                    m.push(fence_char);
                    j = j + 1;
                    assert(m@ =~= m0 + Seq::new(j as nat, |_i: int| fence_char));
                }
                push_str(&mut m, "`)");
                let d = new_diagnostic(open_line, 1, "MD005", &m, Severity::Error);
                push_diagnostic(diags, d);
                assert(views(diags@) =~= before + fences_from(s, i as int, Some((f, open_line as nat))));
                assert(views(diags@) + fences_from(s, i as int, None) =~= views(diags@));
            }
            continue;
        }
        i = i + 1;
    }
    assert(views(diags@) =~= views(diags@) + fences_from(s, i as int, None));
}

/// The fence on a line of at most three spaces of indentation followed by
/// three or more backticks or tildes: `(character, length, indentation)`.
fn fence_candidate_of(line: &Vec<char>) -> (r: Option<(char, usize, usize)>)
    ensures
        match r {
            Some((c, l, ind)) => fence_candidate(line@) == Some(Fence { ch: c, len: l as nat, indent: ind as nat })
                && ind <= 3 && ind <= line.len(),
            None => fence_candidate(line@) is None,
        },
{
    let indent = count_leading(line, ' ');
    if indent > 3 {
        return None;
    }
    let rest = subseq(line, indent, line.len());
    assert(rest@ =~= line@.skip(indent as int));
    if rest.len() == 0 {
        return None;
    }
    let first = rest[0];
    if first != '`' && first != '~' {
        return None;
    }
    let fence_len = count_leading(&rest, first);
    if fence_len < 3 {
        return None;
    }
    Some((first, fence_len, indent))
}

/// Returns `(fence_char, fence_len, indent)` for an opening fence line.
fn opening_fence(line: &Vec<char>) -> (r: Option<(char, usize, usize)>)
    ensures
        match r {
            Some((c, l, ind)) => spec_opening_fence(line@) == Some(Fence { ch: c, len: l as nat, indent: ind as nat }) && ind <= 3,
            None => spec_opening_fence(line@) is None,
        },
{
    match fence_candidate_of(line) {
        Some((first, fence_len, indent)) => {
            let rest = subseq(line, indent, line.len());
            assert(rest@ =~= line@.skip(indent as int));
            proof {
                lemma_leading_eq_facts(rest@, first);
            }
            let info = trim_of(&subseq(&rest, fence_len, rest.len()));
            assert(rest@.subrange(fence_len as int, rest.len() as int) =~= rest@.skip(fence_len as int));
            if first == '`' && crate::text::contains_char(&info, '`') {
                return None;
            }
            Some((first, fence_len, indent))
        },
        None => None,
    }
}

/// Returns `(fence_char, fence_len, indent)` for a potential closing fence.
fn closing_fence_candidate(line: &Vec<char>) -> (r: Option<(char, usize, usize)>)
    ensures
        match r {
            Some((c, l, ind)) => fence_candidate(line@) == Some(Fence { ch: c, len: l as nat, indent: ind as nat }),
            None => fence_candidate(line@) is None,
        },
{
    fence_candidate_of(line)
}

} // verus!
