//! Link and image rules (MD015, MD016).
//!
//! **MD015** – Inline images must have non-empty alt text.
//!             `![](url)` is a warning; `![alt](url)` is fine.
//!
//! **MD016** – Every reference-style link or image (`[label][ref]` or `[ref]`)
//!             must have a matching link reference definition (`[ref]: url`)
//!             somewhere in the document; an unresolved one is an error.  Labels match case-insensitively
//!             and with whitespace runs collapsed.

use vstd::prelude::*;

use crate::rules::{fence_close, fence_open, spec_fence_close, spec_fence_open};
use crate::text::{
    chars_eq, chars_of, contains_char, eq_str, is_whitespace, is_ws, lemma_leading_ws_facts, lines, push_str,
    seqs, split_lines, starts_with, subseq, trim, trim_of, trim_start, trim_start_of,
};
use crate::{new_diagnostic, opt_seq, opt_view, push_diagnostic, push_opt, views, Diagnostic, DiagnosticView, Severity};

verus! {

// ───────────────────────────── label normalisation ─────────────────────────────

/// What std's `str::to_lowercase` returns for a string with these
/// characters (full Unicode lowercase mapping).
pub uninterp spec fn lowercase(s: Seq<char>) -> Seq<char>;

/// `str::to_lowercase` on the string made of these characters.  The
/// contract only names the result: it depends on the characters alone,
/// through std's Unicode case tables.
#[verifier::external_body]
fn to_lowercase(s: &Vec<char>) -> (r: Vec<char>)
    ensures
        r@ == lowercase(s@),
{
    let t: String = s.iter().collect();
    t.to_lowercase().chars().collect()
}

/// Number of leading characters of `s` that are not whitespace.
pub open spec fn leading_word(s: Seq<char>) -> nat
    decreases s.len(),
{
    if s.len() > 0 && !is_ws(s[0]) {
        1 + leading_word(s.drop_first())
    } else {
        0
    }
}

/// `str::split_whitespace`: the maximal runs of non-whitespace characters.
pub open spec fn words(s: Seq<char>) -> Seq<Seq<char>>
    decreases s.len(),
{
    let t = trim_start(s);
    if t.len() == 0 {
        seq![]
    } else {
        let k = leading_word(t) as int;
        proof {
            lemma_leading_ws_facts(s);
            lemma_leading_word_bounds(t);
        }
        seq![t.take(k)] + words(t.skip(k))
    }
}

/// A string that begins with a non-whitespace character begins with a word
/// of at least one character.
pub proof fn lemma_leading_word_bounds(t: Seq<char>)
    ensures
        leading_word(t) <= t.len(),
        t.len() > 0 && !is_ws(t[0]) ==> leading_word(t) >= 1,
    decreases t.len(),
{
    if t.len() > 0 && !is_ws(t[0]) {
        lemma_leading_word_bounds(t.drop_first());
    }
}

/// The words joined with single spaces.
pub open spec fn join_words(ws: Seq<Seq<char>>) -> Seq<char>
    decreases ws.len(),
{
    if ws.len() == 0 {
        seq![]
    } else if ws.len() == 1 {
        ws[0]
    } else {
        join_words(ws.drop_last()) + seq![' '] + ws.last()
    }
}

/// A link label normalised for comparison: whitespace runs collapsed to
/// single spaces, ends trimmed, and lowercased.
pub open spec fn normalise(label: Seq<char>) -> Seq<char> {
    lowercase(join_words(words(label)))
}

// ───────────────────────────── brackets ─────────────────────────────

/// The position of the `]` that closes a bracket opened before `i`, with
/// `depth` brackets opened since; a backslash escapes the character after
/// it.
pub open spec fn close_bracket_from(l: Seq<char>, i: int, depth: nat) -> Option<int>
    decreases l.len() - i,
{
    if i < 0 || i >= l.len() {
        None
    } else if l[i] == '[' {
        close_bracket_from(l, i + 1, depth + 1)
    } else if l[i] == ']' {
        if depth == 0 {
            Some(i)
        } else {
            close_bracket_from(l, i + 1, (depth - 1) as nat)
        }
    } else if l[i] == '\\' {
        if i + 1 >= l.len() {
            None
        } else {
            close_bracket_from(l, i + 2, depth)
        }
    } else {
        close_bracket_from(l, i + 1, depth)
    }
}

/// The position of the `]` matching a bracket whose text starts at `start`.
pub open spec fn close_bracket(l: Seq<char>, start: int) -> Option<int> {
    close_bracket_from(l, start, 0)
}

/// A closing bracket lies at or after where the search starts, inside the line.
pub proof fn lemma_close_bracket_range(l: Seq<char>, i: int, depth: nat)
    requires
        0 <= i,
    ensures
        close_bracket_from(l, i, depth) matches Some(k) ==> i <= k < l.len() && l[k] == ']',
    decreases l.len() - i,
{
    if 0 <= i < l.len() {
        if l[i] == '[' {
            lemma_close_bracket_range(l, i + 1, depth + 1);
        } else if l[i] == ']' {
            if depth != 0 {
                lemma_close_bracket_range(l, i + 1, (depth - 1) as nat);
            }
        } else if l[i] == '\\' {
            if i + 1 < l.len() {
                lemma_close_bracket_range(l, i + 2, depth);
            }
        } else {
            lemma_close_bracket_range(l, i + 1, depth);
        }
    }
}

// ───────────────────────────── images (MD015) ─────────────────────────────

/// MD015 for an image `![alt]` opened at `pos` and closed at `close`: the
/// alt text is blank and an inline `(` or reference `[` follows.
pub open spec fn empty_alt_diagnostic(l: Seq<char>, pos: int, close: int, line_no: nat) -> Seq<DiagnosticView> {
    let alt = l.subrange(pos + 2, close);
    let after = l.skip(close + 1);
    if trim(alt).len() == 0 && (starts_with(after, '(') || starts_with(after, '[')) {
        seq![
            DiagnosticView::new(
                line_no,
                (pos + 1) as nat,
                "MD015"@,
                "Image has empty alt text; provide descriptive alt text"@,
                Severity::Warning,
            ),
        ]
    } else {
        seq![]
    }
}

/// The MD015 diagnostics of the line `l` from position `pos` on.
pub open spec fn images_from(l: Seq<char>, pos: int, line_no: nat) -> Seq<DiagnosticView>
    decreases l.len() - pos,
{
    if pos < 0 || pos >= l.len() {
        seq![]
    } else if pos + 1 < l.len() && l[pos] == '!' && l[pos + 1] == '[' && close_bracket(l, pos + 2) is Some {
        let close = close_bracket(l, pos + 2).unwrap();
        proof {
            lemma_close_bracket_range(l, pos + 2, 0);
        }
        empty_alt_diagnostic(l, pos, close, line_no) + images_from(l, close + 1, line_no)
    } else {
        images_from(l, pos + 1, line_no)
    }
}

// ───────────────────────────── references (MD016) ─────────────────────────────

/// The position of the first `]:` in `t` at or after `k`.
pub open spec fn find_def_colon(t: Seq<char>, k: int) -> Option<int>
    decreases t.len() - k,
{
    if k < 0 || k + 1 >= t.len() {
        None
    } else if t[k] == ']' && t[k + 1] == ':' {
        Some(k)
    } else {
        find_def_colon(t, k + 1)
    }
}

/// The raw label of a link reference definition line `[label]: …`: the
/// line, trimmed at the start, opens with `[`, holds a `]:`, and no `[`
/// comes between.
pub open spec fn definition_label(line: Seq<char>) -> Option<Seq<char>> {
    let t = trim_start(line);
    if !starts_with(t, '[') {
        None
    } else {
        match find_def_colon(t, 0) {
            Some(close) => if !t.subrange(1, close).contains('[') {
                Some(t.subrange(1, close))
            } else {
                None
            },
            None => None,
        }
    }
}

/// The normalised labels of the definitions in `ls[i..]`.
pub open spec fn definitions_from(ls: Seq<Seq<char>>, i: int) -> Seq<Seq<char>>
    decreases ls.len() - i,
{
    if i < 0 || i >= ls.len() {
        seq![]
    } else {
        match definition_label(ls[i]) {
            Some(label) => seq![normalise(label)] + definitions_from(ls, i + 1),
            None => definitions_from(ls, i + 1),
        }
    }
}

/// The normalised labels of all link reference definitions of the document.
pub open spec fn definitions(ls: Seq<Seq<char>>) -> Seq<Seq<char>> {
    definitions_from(ls, 0)
}

/// MD016 for a full or collapsed reference `[text][label]` at `pos`.
pub open spec fn full_reference_diagnostic(
    l: Seq<char>,
    pos: int,
    label: Seq<char>,
    defs: Seq<Seq<char>>,
    line_no: nat,
) -> Seq<DiagnosticView> {
    if !defs.contains(normalise(label)) {
        seq![
            DiagnosticView::new(
                line_no,
                (pos + 1) as nat,
                "MD016"@,
                "Reference link `["@ + label + "]` has no matching definition"@,
                Severity::Error,
            ),
        ]
    } else {
        seq![]
    }
}

/// MD016 for a shortcut reference `[text]` at `pos`, followed by `after`:
/// neither an inline link nor a full reference, not on a definition line,
/// undefined, not blank and not a task box.
pub open spec fn shortcut_reference_diagnostic(
    l: Seq<char>,
    pos: int,
    text: Seq<char>,
    after: Seq<char>,
    defs: Seq<Seq<char>>,
    line_no: nat,
) -> Seq<DiagnosticView> {
    if !starts_with(after, '(') && !starts_with(after, '[') && definition_label(l) is None && !defs.contains(
        normalise(text),
    ) && trim(text).len() > 0 && text != " "@ && text != "x"@ && text != "X"@ {
        seq![
            DiagnosticView::new(
                line_no,
                (pos + 1) as nat,
                "MD016"@,
                "Shortcut reference link `["@ + text + "]` has no matching definition"@,
                Severity::Error,
            ),
        ]
    } else {
        seq![]
    }
}

/// The MD016 diagnostics of the line `l` from position `pos` on.
pub open spec fn references_from(l: Seq<char>, pos: int, defs: Seq<Seq<char>>, line_no: nat) -> Seq<DiagnosticView>
    decreases l.len() - pos,
{
    if pos < 0 || pos >= l.len() {
        seq![]
    } else if l[pos] == '[' && close_bracket(l, pos + 1) is Some {
        let text_end = close_bracket(l, pos + 1).unwrap();
        proof {
            lemma_close_bracket_range(l, pos + 1, 0);
        }
        let text = l.subrange(pos + 1, text_end);
        let after = l.skip(text_end + 1);
        if starts_with(after, '[') && close_bracket(l, text_end + 2) is Some {
            let ref_end = close_bracket(l, text_end + 2).unwrap();
            proof {
                lemma_close_bracket_range(l, text_end + 2, 0);
            }
            let label_raw = l.subrange(text_end + 2, ref_end);
            let label = if trim(label_raw).len() == 0 { text } else { label_raw };
            full_reference_diagnostic(l, pos, label, defs, line_no) + references_from(l, ref_end + 1, defs, line_no)
        } else {
            shortcut_reference_diagnostic(l, pos, text, after, defs, line_no) + references_from(
                l,
                text_end + 1,
                defs,
                line_no,
            )
        }
    } else {
        references_from(l, pos + 1, defs, line_no)
    }
}

// ───────────────────────────── the rule ─────────────────────────────

/// The link diagnostics of `ls[i..]`, where `fence` is the fenced block
/// (character and length) open before line `i`, if any; fenced lines are
/// skipped.
pub open spec fn links_from(ls: Seq<Seq<char>>, i: int, fence: Option<(char, nat)>, defs: Seq<Seq<char>>) -> Seq<
    DiagnosticView,
>
    decreases ls.len() - i,
{
    if i < 0 || i >= ls.len() {
        seq![]
    } else {
        let t = trim_start(ls[i]);
        match fence {
            None => match spec_fence_open(t) {
                Some(f) => links_from(ls, i + 1, Some(f), defs),
                None => images_from(ls[i], 0, (i + 1) as nat) + references_from(ls[i], 0, defs, (i + 1) as nat)
                    + links_from(ls, i + 1, None, defs),
            },
            Some((ch, len)) => if spec_fence_close(t, ch, len) {
                links_from(ls, i + 1, None, defs)
            } else {
                links_from(ls, i + 1, fence, defs)
            },
        }
    }
}

/// The link diagnostics of a document, given as its lines.
pub open spec fn links(ls: Seq<Seq<char>>) -> Seq<DiagnosticView> {
    links_from(ls, 0, None, definitions(ls))
}

/// Appends the link diagnostics of `source` to `diags`.
pub fn check(source: &str, diags: &mut Vec<Diagnostic>)
    ensures
        views(final(diags)@) == views(old(diags)@) + links(lines(source@)),
{
    let chars = chars_of(source);
    let ls = split_lines(&chars);
    check_lines(&ls, diags);
}

/// Appends the link diagnostics of the lines `ls` to `diags`.
pub fn check_lines(ls: &Vec<Vec<char>>, diags: &mut Vec<Diagnostic>)
    ensures
        views(final(diags)@) == views(old(diags)@) + links(seqs(ls@)),
{
    let ghost s = seqs(ls@);
    let defined = collect_definitions(ls);
    let ghost defs = seqs(defined@);
    let mut in_fence = false;
    let mut fence_char = ' ';
    let mut fence_len: usize = 0;
    let mut i: usize = 0;
    while i < ls.len()
        invariant
            s == seqs(ls@),
            defs == seqs(defined@),
            defs == definitions(s),
            i <= ls.len(),
            views(diags@) + links_from(
                s,
                i as int,
                if in_fence { Some((fence_char, fence_len as nat)) } else { None },
                defs,
            ) == views(old(diags)@) + links(s),
        decreases ls.len() - i,
    {
        let raw = &ls[i];
        assert(raw@ == s[i as int]);
        let ghost before = views(diags@);
        let trimmed = trim_start_of(raw);
        if !in_fence {
            if let Some((fc, fl)) = fence_open(&trimmed) {
                in_fence = true;
                fence_char = fc;
                fence_len = fl;
                i = i + 1;
                continue;
            }
        } else {
            if fence_close(&trimmed, fence_char, fence_len) {
                in_fence = false;
            }
            i = i + 1;
            continue;
        }
        check_images(raw, i + 1, diags);
        check_references(raw, i + 1, &defined, diags);
        assert(views(diags@) + links_from(s, i + 1, None, defs) =~= before + links_from(s, i as int, None, defs));
        i = i + 1;
    }
    assert(views(diags@) =~= views(diags@) + links_from(
        s,
        i as int,
        if in_fence { Some((fence_char, fence_len as nat)) } else { None },
        defs,
    ));
}

/// Appends MD015 for each image of `line` with empty alt text.
fn check_images(line: &Vec<char>, line_no: usize, diags: &mut Vec<Diagnostic>)
    ensures
        views(final(diags)@) == views(old(diags)@) + images_from(line@, 0, line_no as nat),
{
    let mut pos: usize = 0;
    while pos < line.len()
        invariant
            pos <= line.len(),
            views(diags@) + images_from(line@, pos as int, line_no as nat) == views(old(diags)@) + images_from(
                line@,
                0,
                line_no as nat,
            ),
        decreases line.len() - pos,
    {
        let ghost before = views(diags@);
        if pos + 1 < line.len() && line[pos] == '!' && line[pos + 1] == '[' {
            let alt_start = pos + 2;
            if let Some(close_bracket) = find_close_bracket(line, alt_start) {
                let alt = trim_of(&subseq(line, alt_start, close_bracket));
                if alt.len() == 0 {
                    let next = close_bracket + 1;
                    if next < line.len() && (line[next] == '(' || line[next] == '[') {
                        let col = pos + 1;
                        let mut m: Vec<char> = Vec::new();
                        push_str(&mut m, "Image has empty alt text; provide descriptive alt text");
                        push_diagnostic(diags, new_diagnostic(line_no, col, "MD015", &m, Severity::Warning));
                    }
                }
                assert(views(diags@) + images_from(line@, close_bracket + 1, line_no as nat) =~= before
                    + images_from(line@, pos as int, line_no as nat));
                pos = close_bracket + 1;
                continue;
            }
        }
        pos = pos + 1;
    }
    assert(views(diags@) =~= views(diags@) + images_from(line@, pos as int, line_no as nat));
}

/// Appends MD016 for each reference-style link of `line` that no definition
/// resolves.
fn check_references(line: &Vec<char>, line_no: usize, definitions: &Vec<Vec<char>>, diags: &mut Vec<Diagnostic>)
    ensures
        views(final(diags)@) == views(old(diags)@) + references_from(line@, 0, seqs(definitions@), line_no as nat),
{
    let ghost defs = seqs(definitions@);
    let mut pos: usize = 0;
    while pos < line.len()
        invariant
            defs == seqs(definitions@),
            pos <= line.len(),
            views(diags@) + references_from(line@, pos as int, defs, line_no as nat) == views(old(diags)@)
                + references_from(line@, 0, defs, line_no as nat),
        decreases line.len() - pos,
    {
        let ghost before = views(diags@);
        if line[pos] == '[' {
            let text_start = pos + 1;
            if let Some(text_end) = find_close_bracket(line, text_start) {
                let text = subseq(line, text_start, text_end);
                let next = text_end + 1;
                let after_bracket = next < line.len() && line[next] == '[';
                if after_bracket {
                    let ref_start = text_end + 2;
                    if let Some(ref_end) = find_close_bracket(line, ref_start) {
                        let label_raw = subseq(line, ref_start, ref_end);
                        let label = if trim_of(&label_raw).len() == 0 {
                            text
                        } else {
                            label_raw
                        };
                        let d = full_reference(line, pos, &label, definitions, line_no);
                        push_opt(diags, d);
                        assert(views(diags@) + references_from(line@, ref_end + 1, defs, line_no as nat) =~= before
                            + references_from(line@, pos as int, defs, line_no as nat));
                        pos = ref_end + 1;
                        continue;
                    }
                }
                let d = shortcut_reference(line, pos, text_end, definitions, line_no);
                push_opt(diags, d);
                assert(views(diags@) + references_from(line@, text_end + 1, defs, line_no as nat) =~= before
                    + references_from(line@, pos as int, defs, line_no as nat));
                pos = text_end + 1;
                continue;
            }
        }
        pos = pos + 1;
    }
    assert(views(diags@) =~= views(diags@) + references_from(line@, pos as int, defs, line_no as nat));
}

/// MD016 for a full or collapsed reference at `pos` with label `label`.
fn full_reference(
    line: &Vec<char>,
    pos: usize,
    label: &Vec<char>,
    definitions: &Vec<Vec<char>>,
    line_no: usize,
) -> (r: Option<Diagnostic>)
    requires
        pos < line.len(),
    ensures
        opt_seq(opt_view(r)) == full_reference_diagnostic(line@, pos as int, label@, seqs(definitions@), line_no as nat),
{
    let key = normalise_label(label);
    if !is_inline_link_or_image(line, pos) && !contains_label(definitions, &key) {
        let col = pos + 1;
        let mut m: Vec<char> = Vec::new();
        push_str(&mut m, "Reference link `[");
        let mut l = subseq(label, 0, label.len());
        m.append(&mut l);
        push_str(&mut m, "]` has no matching definition");
        assert(m@ =~= "Reference link `["@ + label@ + "]` has no matching definition"@);
        return Some(new_diagnostic(line_no, col, "MD016", &m, Severity::Error));
    }
    None
}

/// MD016 for a shortcut reference whose `[` is at `pos` and whose `]` is at
/// `text_end`.
fn shortcut_reference(
    line: &Vec<char>,
    pos: usize,
    text_end: usize,
    definitions: &Vec<Vec<char>>,
    line_no: usize,
) -> (r: Option<Diagnostic>)
    requires
        pos < text_end < line.len(),
    ensures
        opt_seq(opt_view(r)) == shortcut_reference_diagnostic(
            line@,
            pos as int,
            line@.subrange(pos + 1, text_end as int),
            line@.skip(text_end + 1),
            seqs(definitions@),
            line_no as nat,
        ),
{
    let text = subseq(line, pos + 1, text_end);
    let next = text_end + 1;
    if next < line.len() && (line[next] == '(' || line[next] == '[') {
        return None;
    }
    if is_inline_link_or_image(line, pos) || is_definition_line(line) {
        return None;
    }
    let key = normalise_label(&text);
    if contains_label(definitions, &key) {
        return None;
    }
    if trim_of(&text).len() == 0 {
        return None;
    }
    if eq_str(&text, " ") || eq_str(&text, "x") || eq_str(&text, "X") {
        return None;
    }
    let col = pos + 1;
    let mut m: Vec<char> = Vec::new();
    push_str(&mut m, "Shortcut reference link `[");
    let mut t = subseq(&text, 0, text.len());
    m.append(&mut t);
    push_str(&mut m, "]` has no matching definition");
    assert(m@ =~= "Shortcut reference link `["@ + text@ + "]` has no matching definition"@);
    Some(new_diagnostic(line_no, col, "MD016", &m, Severity::Error))
}

/// Finds the position of the `]` matching a bracket whose text starts at
/// `start`, skipping escaped characters and nested brackets.
fn find_close_bracket(s: &Vec<char>, start: usize) -> (r: Option<usize>)
    ensures
        match r {
            Some(k) => close_bracket(s@, start as int) == Some(k as int) && start <= k < s.len(),
            None => close_bracket(s@, start as int) is None,
        },
{
    if start > s.len() {
        return None;
    }
    let mut depth: usize = 0;
    let mut i = start;
    proof {
        lemma_close_bracket_range(s@, start as int, 0);
    }
    while i < s.len()
        invariant
            start <= i <= s.len(),
            depth <= i - start,
            close_bracket_from(s@, i as int, depth as nat) == close_bracket(s@, start as int),
        decreases s.len() - i,
    {
        let c = s[i];
        if c == '[' {
            depth = depth + 1;
        } else if c == ']' {
            if depth == 0 {
                return Some(i);
            }
            depth = depth - 1;
        } else if c == '\\' {
            if i + 1 >= s.len() {
                return None;
            }
            i = i + 1;
        }
        i = i + 1;
    }
    None
}

/// Whether the bracket at `pos` belongs to an inline link or an image that
/// another check reports; no bracket does.
fn is_inline_link_or_image(line: &Vec<char>, pos: usize) -> (r: bool)
    requires
        pos <= line.len(),
    ensures
        !r,
{
    if pos > 0 && line[pos - 1] == '!' {
        return false;
    }
    false
}

/// The position of the first `]:` in `t`.
fn find_colon(t: &Vec<char>) -> (r: Option<usize>)
    ensures
        match r {
            Some(k) => find_def_colon(t@, 0) == Some(k as int) && k + 1 < t.len() && t@[k as int] == ']',
            None => find_def_colon(t@, 0) is None,
        },
{
    let mut k: usize = 0;
    while k < t.len() && k + 1 < t.len()
        invariant
            k <= t.len(),
            find_def_colon(t@, k as int) == find_def_colon(t@, 0),
        decreases t.len() - k,
    {
        if t[k] == ']' && t[k + 1] == ':' {
            return Some(k);
        }
        k = k + 1;
    }
    None
}

/// The raw label of a link reference definition line.
fn definition_label_of(line: &Vec<char>) -> (r: Option<Vec<char>>)
    ensures
        match r {
            Some(l) => definition_label(line@) == Some(l@),
            None => definition_label(line@) is None,
        },
{
    let t = trim_start_of(line);
    if !(t.len() > 0 && t[0] == '[') {
        return None;
    }
    match find_colon(&t) {
        Some(close) => {
            let label = subseq(&t, 1, close);
            if !contains_char(&label, '[') {
                Some(label)
            } else {
                None
            }
        },
        None => None,
    }
}

/// True if the line is itself a link reference definition (`[label]: url`).
fn is_definition_line(line: &Vec<char>) -> (r: bool)
    ensures
        r == (definition_label(line@) is Some),
{
    definition_label_of(line).is_some()
}

/// The words of `s` (`str::split_whitespace`).
fn split_words(s: &Vec<char>) -> (r: Vec<Vec<char>>)
    ensures
        seqs(r@) == words(s@),
{
    let mut r: Vec<Vec<char>> = Vec::new();
    let mut rest = subseq(s, 0, s.len());
    assert(rest@ =~= s@);
    assert(seqs(r@) + words(rest@) =~= words(s@));
    while rest.len() > 0
        invariant
            seqs(r@) + words(rest@) == words(s@),
        decreases rest.len(),
    {
        let t = trim_start_of(&rest);
        proof {
            lemma_leading_ws_facts(rest@);
        }
        if t.len() == 0 {
            assert(words(rest@) =~= Seq::<Seq<char>>::empty());
            assert(seqs(r@) =~= seqs(r@) + words(rest@));
            return r;
        }
        let k = count_leading_word(&t);
        let word = subseq(&t, 0, k);
        let ghost old_r = r@;
        let ghost old_rest = rest@;
        r.push(word);
        rest = subseq(&t, k, t.len());
        proof {
            assert(word@ =~= t@.take(k as int));
            assert(rest@ =~= t@.skip(k as int));
            assert(seqs(r@) =~= seqs(old_r).push(word@));
            assert(seqs(r@) + words(rest@) =~= seqs(old_r) + words(old_rest));
        }
    }
    assert(words(rest@) =~= Seq::<Seq<char>>::empty());
    assert(seqs(r@) =~= seqs(r@) + words(rest@));
    r
}

/// Number of leading non-whitespace characters, for a string that does not
/// begin with whitespace but is not empty.
fn count_leading_word(s: &Vec<char>) -> (r: usize)
    requires
        s.len() > 0,
        !is_ws(s@[0]),
    ensures
        r == leading_word(s@),
        0 < r <= s.len(),
{
    let mut i: usize = 0;
    while i < s.len() && !is_whitespace(s[i])
        invariant
            i <= s.len(),
            forall|j: int| 0 <= j < i ==> !is_ws(#[trigger] s@[j]),
        decreases s.len() - i,
    {
        i = i + 1;
    }
    proof {
        lemma_leading_word(s@, i as int);
    }
    i
}

/// Characterizes `leading_word` by the first whitespace position.
proof fn lemma_leading_word(s: Seq<char>, k: int)
    requires
        0 <= k <= s.len(),
        forall|j: int| 0 <= j < k ==> !is_ws(#[trigger] s[j]),
        k == s.len() || is_ws(s[k]),
    ensures
        leading_word(s) == k,
    decreases k,
{
    if k > 0 {
        lemma_leading_word(s.drop_first(), k - 1);
    }
}

/// Joins words with single spaces.
fn join(ws: &Vec<Vec<char>>) -> (r: Vec<char>)
    ensures
        r@ == join_words(seqs(ws@)),
{
    let ghost w = seqs(ws@);
    let mut r: Vec<char> = Vec::new();
    let mut k: usize = 0;
    while k < ws.len()
        invariant
            k <= ws.len(),
            w == seqs(ws@),
            r@ == join_words(w.take(k as int)),
        decreases ws.len() - k,
    {
        assert(w.take(k + 1).drop_last() =~= w.take(k as int));
        assert(ws[k as int]@ == w[k as int]);
        if k > 0 {
            r.push(' ');
        }
        let mut piece = subseq(&ws[k], 0, ws[k].len());
        r.append(&mut piece);
        proof {
            if k == 0 {
                assert(w.take(1) =~= seq![w[0]]);
                assert(r@ =~= w[0]);
            }
        }
        k = k + 1;
    }
    assert(w.take(ws.len() as int) =~= w);
    r
}

/// Normalises a link label for case-insensitive comparison.
fn normalise_label(label: &Vec<char>) -> (r: Vec<char>)
    ensures
        r@ == normalise(label@),
{
    let ws = split_words(label);
    let joined = join(&ws);
    to_lowercase(&joined)
}

/// Whether `key` is one of the definitions.
pub fn contains_label(definitions: &Vec<Vec<char>>, key: &Vec<char>) -> (r: bool)
    ensures
        r == seqs(definitions@).contains(key@),
{
    let ghost d = seqs(definitions@);
    let mut k: usize = 0;
    while k < definitions.len()
        invariant
            k <= definitions.len(),
            d == seqs(definitions@),
            forall|j: int| 0 <= j < k ==> #[trigger] d[j] != key@,
        decreases definitions.len() - k,
    {
        assert(definitions[k as int]@ == d[k as int]);
        if chars_eq(&definitions[k], key) {
            return true;
        }
        k = k + 1;
    }
    false
}

/// Collects the normalised labels of all link reference definitions.
fn collect_definitions(ls: &Vec<Vec<char>>) -> (r: Vec<Vec<char>>)
    ensures
        seqs(r@) == definitions(seqs(ls@)),
{
    let ghost s = seqs(ls@);
    let mut defs: Vec<Vec<char>> = Vec::new();
    let mut i: usize = 0;
    while i < ls.len()
        invariant
            i <= ls.len(),
            s == seqs(ls@),
            seqs(defs@) + definitions_from(s, i as int) == definitions(s),
        decreases ls.len() - i,
    {
        assert(ls[i as int]@ == s[i as int]);
        let ghost old_defs = defs@;
        if let Some(label) = definition_label_of(&ls[i]) {
            defs.push(normalise_label(&label));
            assert(seqs(defs@) =~= seqs(old_defs).push(defs@.last()@));
        }
        assert(seqs(defs@) + definitions_from(s, i + 1) =~= seqs(old_defs) + definitions_from(s, i as int));
        i = i + 1;
    }
    assert(seqs(defs@) =~= seqs(defs@) + definitions_from(s, i as int));
    defs
}

} // verus!
