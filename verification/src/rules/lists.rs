//! List rules (MD007, MD008, MD009).
//!
//! **MD007** – Unordered list markers in a document must be consistent
//!             (all `-`, all `*`, or all `+`).
//!
//! **MD008** – The first item of an ordered list must start at `1.` or `1)`.
//!
//! **MD009** – Task list items must use exactly `[ ]` (unchecked) or `[x]` /
//!             `[X]` (checked) immediately after the list marker and space.

use vstd::prelude::*;

use crate::text::{
    byte_len, byte_len_capped, byte_prefix, byte_prefix_of, char_width, chars_of, count_leading_ne,
    count_leading_ws, decimal, decimal_of, eq_str, has_prefix, has_prefix_str, indent_col, indent_col_of,
    leading_ne, leading_ws, lines, min, push_str, seqs, split_lines, starts_with, subseq, trim_start,
    trim_start_of, width_of,
};
use crate::{new_diagnostic, opt_seq, opt_view, push_opt, views, Diagnostic, DiagnosticView, Severity};

verus! {

/// `char::is_ascii_digit`.
pub open spec fn is_digit(c: char) -> bool {
    '0' <= c && c <= '9'
}

/// Number of leading ASCII digits of `s`.
pub open spec fn leading_digits(s: Seq<char>) -> nat
    decreases s.len(),
{
    if s.len() > 0 && is_digit(s[0]) {
        1 + leading_digits(s.drop_first())
    } else {
        0
    }
}

/// The number that a string of ASCII digits spells in decimal.
pub open spec fn digits_value(s: Seq<char>) -> nat
    decreases s.len(),
{
    if s.len() == 0 {
        0
    } else {
        digits_value(s.drop_last()) * 10 + ((s.last() as int - '0' as int) as nat)
    }
}

/// `10^n`.
pub open spec fn pow10(n: nat) -> nat
    decreases n,
{
    if n == 0 { 1 } else { 10 * pow10((n - 1) as nat) }
}

/// The marker of an unordered list item: `-`, `*` or `+` followed by a
/// space or a tab.
pub open spec fn spec_unordered_marker(t: Seq<char>) -> Option<char> {
    if t.len() >= 2 && (t[0] == '-' || t[0] == '*' || t[0] == '+') && (t[1] == ' ' || t[1] == '\t') {
        Some(t[0])
    } else {
        None
    }
}

/// The number and delimiter of an ordered list item: one to nine digits,
/// `.` or `)`, then a space, a tab or the end of the line.
pub open spec fn spec_ordered_marker(t: Seq<char>) -> Option<(nat, char)> {
    let end = leading_digits(t);
    if end == 0 || end > 9 || end >= t.len() {
        None
    } else {
        let delim = t[end as int];
        let after = t.skip(end as int + 1);
        if (delim == '.' || delim == ')') && (after.len() == 0 || after[0] == ' ' || after[0] == '\t') {
            Some((digits_value(t.take(end as int)), delim))
        } else {
            None
        }
    }
}

/// What follows the marker of a list item, with leading whitespace removed.
pub open spec fn spec_list_item_content(t: Seq<char>) -> Option<Seq<char>> {
    match spec_unordered_marker(t) {
        Some(_) => Some(trim_start(t.skip(2))),
        None => match spec_ordered_marker(t) {
            Some((_, delim)) => Some(trim_start(t.skip(leading_ne(t, delim) as int + 1))),
            None => None,
        },
    }
}

/// A well-formed task box, given what follows its `[`.
pub open spec fn task_box_valid(b: Seq<char>) -> bool {
    ||| has_prefix(b, "] "@)
    ||| b == "]"@
    ||| has_prefix(b, "x] "@)
    ||| b == "x]"@
    ||| has_prefix(b, "X] "@)
    ||| b == "X]"@
    ||| has_prefix(b, " ] "@)
    ||| b == " ]"@
}

/// What follows the `[` looks like a one-character task box: its second
/// byte is `]` (so the first character is a single byte).
pub open spec fn looks_like_task(b: Seq<char>) -> bool {
    b.len() >= 2 && char_width(b[0]) == 1 && b[1] == ']'
}

/// What follows the `[` of the task box of the line, if the line is a list
/// item whose content begins with `[`.
pub open spec fn task_box(raw: Seq<char>) -> Option<Seq<char>> {
    match spec_list_item_content(trim_start(raw)) {
        Some(after) => if starts_with(after, '[') {
            Some(after.skip(1))
        } else {
            None
        },
        None => None,
    }
}

/// MD009 fires on the line: a malformed one-character task box.
pub open spec fn md009_fires(raw: Seq<char>) -> bool {
    match task_box(raw) {
        Some(b) => !task_box_valid(b) && looks_like_task(b),
        None => false,
    }
}

/// Where MD009 fires, the quoted excerpt of at most three bytes ends
/// between two characters (the message is cut out of the line there).
pub open spec fn md009_excerpt_ok(raw: Seq<char>) -> bool {
    md009_fires(raw) ==> byte_prefix(task_box(raw).unwrap(), min(byte_len(task_box(raw).unwrap()), 3)) is Some
}

/// Every line's MD009 excerpt can be cut out.
pub open spec fn excerpts_ok(ls: Seq<Seq<char>>) -> bool {
    forall|i: int| 0 <= i < ls.len() ==> md009_excerpt_ok(#[trigger] ls[i])
}

/// MD009 for line `line_no`.
pub open spec fn task_diagnostic(raw: Seq<char>, line_no: nat) -> Seq<DiagnosticView> {
    if md009_fires(raw) {
        let b = task_box(raw).unwrap();
        seq![
            DiagnosticView::new(
                line_no,
                indent_col(raw),
                "MD009"@,
                "Malformed task list item; use `[ ]` or `[x]`, found `["@ + byte_prefix(b, min(byte_len(b), 3)).unwrap()
                    + "`"@,
                Severity::Error,
            ),
        ]
    } else {
        seq![]
    }
}

/// MD007 for line `line_no`, given the first unordered marker seen before.
pub open spec fn marker_diagnostic(raw: Seq<char>, first: Option<char>, line_no: nat) -> Seq<DiagnosticView> {
    match (spec_unordered_marker(trim_start(raw)), first) {
        (Some(m), Some(fc)) => if fc != m {
            seq![
                DiagnosticView::new(
                    line_no,
                    indent_col(raw),
                    "MD007"@,
                    "Inconsistent unordered list marker: expected `"@ + seq![fc] + "`, found `"@ + seq![m] + "`"@,
                    Severity::Warning,
                ),
            ]
        } else {
            seq![]
        },
        _ => seq![],
    }
}

/// The first unordered marker after line `raw`.
pub open spec fn next_first(raw: Seq<char>, first: Option<char>) -> Option<char> {
    match (spec_unordered_marker(trim_start(raw)), first) {
        (Some(m), None) => Some(m),
        _ => first,
    }
}

/// MD008 for line `line_no`, where `prev` says whether the last non-blank
/// line before it was an unindented ordered item.
pub open spec fn start_diagnostic(raw: Seq<char>, prev: bool, line_no: nat) -> Seq<DiagnosticView> {
    match spec_ordered_marker(trim_start(raw)) {
        Some((n, _)) => if leading_ws(raw) == 0 && n != 1 && !prev {
            seq![
                DiagnosticView::new(
                    line_no,
                    1,
                    "MD008"@,
                    "Ordered list should start at 1, found "@ + decimal(n),
                    Severity::Warning,
                ),
            ]
        } else {
            seq![]
        },
        None => seq![],
    }
}

/// Whether an unindented ordered item is the last non-blank line, after `raw`.
pub open spec fn next_prev(raw: Seq<char>, prev: bool) -> bool {
    match spec_ordered_marker(trim_start(raw)) {
        Some(_) => leading_ws(raw) == 0,
        None => if trim_start(raw).len() > 0 { false } else { prev },
    }
}

/// The list diagnostics of `ls[i..]`, given the first unordered marker and
/// the ordered-item context before line `i`.
pub open spec fn lists_from(ls: Seq<Seq<char>>, i: int, first: Option<char>, prev: bool) -> Seq<DiagnosticView>
    decreases ls.len() - i,
{
    if i < 0 || i >= ls.len() {
        seq![]
    } else {
        let raw = ls[i];
        let line_no = (i + 1) as nat;
        marker_diagnostic(raw, first, line_no) + start_diagnostic(raw, prev, line_no) + task_diagnostic(raw, line_no)
            + lists_from(ls, i + 1, next_first(raw, first), next_prev(raw, prev))
    }
}

/// The list diagnostics of a document, given as its lines.
pub open spec fn lists(ls: Seq<Seq<char>>) -> Seq<DiagnosticView> {
    lists_from(ls, 0, None, false)
}

/// Appends the list diagnostics of `source` to `diags`.
pub fn check(source: &str, diags: &mut Vec<Diagnostic>)
    requires
        excerpts_ok(lines(source@)),
    ensures
        views(final(diags)@) == views(old(diags)@) + lists(lines(source@)),
{
    let chars = chars_of(source);
    let ls = split_lines(&chars);
    check_lines(&ls, diags);
}

/// Appends the list diagnostics of the lines `ls` to `diags`.
pub fn check_lines(ls: &Vec<Vec<char>>, diags: &mut Vec<Diagnostic>)
    requires
        excerpts_ok(seqs(ls@)),
    ensures
        views(final(diags)@) == views(old(diags)@) + lists(seqs(ls@)),
{
    let ghost s = seqs(ls@);
    let mut ul_first_char: Option<char> = None;
    let mut prev_was_ordered_at_0 = false;
    let mut i: usize = 0;
    while i < ls.len()
        invariant
            s == seqs(ls@),
            excerpts_ok(s),
            i <= ls.len(),
            views(diags@) + lists_from(s, i as int, ul_first_char, prev_was_ordered_at_0) == views(old(diags)@)
                + lists(s),
        decreases ls.len() - i,
    {
        let raw = &ls[i];
        assert(raw@ == s[i as int]);
        let line_no = i + 1;
        let ghost before = views(diags@);
        let ghost first0 = ul_first_char;
        let ghost prev0 = prev_was_ordered_at_0;
        let trimmed = trim_start_of(raw);

        // MD007: unordered list marker consistency
        let m007 = marker_check(raw, &trimmed, ul_first_char, line_no);
        push_opt(diags, m007);
        if let Some(marker_char) = unordered_marker(&trimmed) {
            if ul_first_char.is_none() {
                ul_first_char = Some(marker_char);
            }
        }
        let ghost after_marker = views(diags@);

        // MD008: ordered list starts at 1
        let m008 = start_check(raw, &trimmed, prev_was_ordered_at_0, line_no);
        push_opt(diags, m008);
        let indent = count_leading_ws(raw);
        if let Some((_start_num, _delim)) = ordered_marker(&trimmed) {
            prev_was_ordered_at_0 = indent == 0;
        } else {
            if trimmed.len() > 0 {
                prev_was_ordered_at_0 = false;
            }
        }
        let ghost after_start = views(diags@);
        assert(ul_first_char == next_first(raw@, first0));
        assert(prev_was_ordered_at_0 == next_prev(raw@, prev0));

        // MD009: task list item syntax
        let m009 = task_item(raw, &trimmed, line_no);
        push_opt(diags, m009);
        assert(views(diags@) + lists_from(s, i + 1, ul_first_char, prev_was_ordered_at_0) =~= before + lists_from(
            s,
            i as int,
            first0,
            prev0,
        ));
        i = i + 1;
    }
    assert(views(diags@) =~= views(diags@) + lists_from(s, i as int, ul_first_char, prev_was_ordered_at_0));
}

/// The MD007 diagnostic of a line, whose trimmed form is `trimmed`, when
/// `first` is the first unordered marker seen before it.
fn marker_check(raw: &Vec<char>, trimmed: &Vec<char>, first: Option<char>, line_no: usize) -> (r: Option<Diagnostic>)
    requires
        trimmed@ == trim_start(raw@),
    ensures
        opt_seq(opt_view(r)) == marker_diagnostic(raw@, first, line_no as nat),
{
    if let Some(marker_char) = unordered_marker(trimmed) {
        if let Some(fc) = first {
            if fc != marker_char {
                let col = indent_col_of(raw);
                let mut m: Vec<char> = Vec::new();
                push_str(&mut m, "Inconsistent unordered list marker: expected `");
                m.push(fc);
                push_str(&mut m, "`, found `");
                m.push(marker_char);
                push_str(&mut m, "`");
                let d = new_diagnostic(line_no, col, "MD007", &m, Severity::Warning);
                assert(m@ =~= "Inconsistent unordered list marker: expected `"@ + seq![fc] + "`, found `"@ + seq![
                    marker_char,
                ] + "`"@);
                return Some(d);
            }
        }
    }
    None
}

/// The MD008 diagnostic of a line, whose trimmed form is `trimmed`.
fn start_check(raw: &Vec<char>, trimmed: &Vec<char>, prev: bool, line_no: usize) -> (r: Option<Diagnostic>)
    requires
        trimmed@ == trim_start(raw@),
    ensures
        opt_seq(opt_view(r)) == start_diagnostic(raw@, prev, line_no as nat),
{
    let indent = count_leading_ws(raw);
    if let Some((start_num, _delim)) = ordered_marker(trimmed) {
        if indent == 0 && start_num != 1 && !prev {
            let mut m: Vec<char> = Vec::new();
            push_str(&mut m, "Ordered list should start at 1, found ");
            let mut num = decimal_of(start_num);
            m.append(&mut num);
            return Some(new_diagnostic(line_no, 1, "MD008", &m, Severity::Warning));
        }
    }
    None
}

/// The MD009 diagnostic of a line, whose trimmed form is `trimmed`.
fn task_item(raw: &Vec<char>, trimmed: &Vec<char>, line_no: usize) -> (r: Option<Diagnostic>)
    requires
        trimmed@ == trim_start(raw@),
        md009_excerpt_ok(raw@),
    ensures
        opt_seq(opt_view(r)) == task_diagnostic(raw@, line_no as nat),
{
    let after_marker = match list_item_content(trimmed) {
        Some(a) => a,
        None => return None,
    };
    if !(after_marker.len() > 0 && after_marker[0] == '[') {
        return None;
    }
    let bracket_content = subseq(&after_marker, 1, after_marker.len());
    assert(bracket_content@ =~= after_marker@.skip(1));
    let valid = has_prefix_str(&bracket_content, "] ") || eq_str(&bracket_content, "]") || has_prefix_str(
        &bracket_content,
        "x] ",
    ) || eq_str(&bracket_content, "x]") || has_prefix_str(&bracket_content, "X] ") || eq_str(
        &bracket_content,
        "X]",
    ) || has_prefix_str(&bracket_content, " ] ") || eq_str(&bracket_content, " ]");
    if valid {
        return None;
    }
    let looks_like_task = bracket_content.len() >= 2 && width_of(bracket_content[0]) == 1 && bracket_content[1]
        == ']';
    if !looks_like_task {
        return None;
    }
    let n = byte_len_capped(&bracket_content, 3);
    let excerpt = byte_prefix_of(&bracket_content, n).unwrap();
    let col = indent_col_of(raw);
    let mut m: Vec<char> = Vec::new();
    push_str(&mut m, "Malformed task list item; use `[ ]` or `[x]`, found `[");
    let mut e = excerpt;
    m.append(&mut e);
    push_str(&mut m, "`");
    Some(new_diagnostic(line_no, col, "MD009", &m, Severity::Error))
}

/// Whether the MD009 excerpt of the line, if MD009 fires on it, can be cut
/// out of it.
pub fn md009_excerpt_fits(raw: &Vec<char>) -> (r: bool)
    ensures
        r == md009_excerpt_ok(raw@),
{
    let trimmed = trim_start_of(raw);
    let after_marker = match list_item_content(&trimmed) {
        Some(a) => a,
        None => return true,
    };
    if !(after_marker.len() > 0 && after_marker[0] == '[') {
        return true;
    }
    let bracket_content = subseq(&after_marker, 1, after_marker.len());
    assert(bracket_content@ =~= after_marker@.skip(1));
    let valid = has_prefix_str(&bracket_content, "] ") || eq_str(&bracket_content, "]") || has_prefix_str(
        &bracket_content,
        "x] ",
    ) || eq_str(&bracket_content, "x]") || has_prefix_str(&bracket_content, "X] ") || eq_str(
        &bracket_content,
        "X]",
    ) || has_prefix_str(&bracket_content, " ] ") || eq_str(&bracket_content, " ]");
    if valid {
        return true;
    }
    if !(bracket_content.len() >= 2 && width_of(bracket_content[0]) == 1 && bracket_content[1] == ']') {
        return true;
    }
    let n = byte_len_capped(&bracket_content, 3);
    byte_prefix_of(&bracket_content, n).is_some()
}

/// If `trimmed` starts with an unordered list marker followed by a space or
/// a tab, returns the marker character.
fn unordered_marker(trimmed: &Vec<char>) -> (r: Option<char>)
    ensures
        r == spec_unordered_marker(trimmed@),
{
    if trimmed.len() >= 2 {
        let c = trimmed[0];
        let second = trimmed[1];
        if (c == '-' || c == '*' || c == '+') && (second == ' ' || second == '\t') {
            return Some(c);
        }
    }
    None
}

/// If `trimmed` starts with an ordered list marker (`N.` or `N)`) followed by
/// a space, a tab or the end, returns `(N, delimiter)`.
fn ordered_marker(trimmed: &Vec<char>) -> (r: Option<(usize, char)>)
    ensures
        match r {
            Some((n, d)) => spec_ordered_marker(trimmed@) == Some((n as nat, d)),
            None => spec_ordered_marker(trimmed@) is None,
        },
{
    let mut end: usize = 0;
    let mut num: usize = 0;
    while end < trimmed.len() && '0' <= trimmed[end] && trimmed[end] <= '9' && end < 10
        invariant
            end <= trimmed.len(),
            end <= 10,
            forall|j: int| 0 <= j < end ==> is_digit(#[trigger] trimmed@[j]),
            end <= 9 ==> num == digits_value(trimmed@.take(end as int)),
            end <= 9 ==> num < pow10(end as nat),
        decreases trimmed.len() - end,
    {
        if end < 9 {
            proof {
                assert(is_digit(trimmed@[end as int]));
                lemma_pow10_le(end as nat + 1);
                assert(trimmed@.take(end + 1).drop_last() =~= trimmed@.take(end as int));
            }
            let d = (trimmed[end] as u32 - '0' as u32) as usize;
            num = num * 10 + d;
        }
        end = end + 1;
    }
    proof {
        lemma_leading_digits(trimmed@, end as int);
    }
    if end == 0 || end > 9 || end >= trimmed.len() {
        return None;
    }
    let delim = trimmed[end];
    if delim != '.' && delim != ')' {
        return None;
    }
    if end + 1 < trimmed.len() && trimmed[end + 1] != ' ' && trimmed[end + 1] != '\t' {
        return None;
    }
    Some((num, delim))
}

/// The content after the list marker and its following whitespace, or
/// `None` if the line is not a list item.
fn list_item_content(trimmed: &Vec<char>) -> (r: Option<Vec<char>>)
    ensures
        match r {
            Some(c) => spec_list_item_content(trimmed@) == Some(c@),
            None => spec_list_item_content(trimmed@) is None,
        },
{
    if let Some(_c) = unordered_marker(trimmed) {
        let rest = subseq(trimmed, 2, trimmed.len());
        assert(rest@ =~= trimmed@.skip(2));
        return Some(trim_start_of(&rest));
    }
    if let Some((_n, delim)) = ordered_marker(trimmed) {
        let delim_pos = count_leading_ne(trimmed, delim);
        let rest = subseq(trimmed, delim_pos + 1, trimmed.len());
        assert(rest@ =~= trimmed@.skip(delim_pos + 1));
        return Some(trim_start_of(&rest));
    }
    None
}

/// Characterizes `leading_digits` by the first position that is not a digit.
proof fn lemma_leading_digits(s: Seq<char>, k: int)
    requires
        0 <= k <= s.len(),
        forall|j: int| 0 <= j < k ==> is_digit(#[trigger] s[j]),
    ensures
        leading_digits(s) >= k,
        k == s.len() || !is_digit(s[k]) ==> leading_digits(s) == k,
    decreases k,
{
    if k > 0 {
        lemma_leading_digits(s.drop_first(), k - 1);
    }
}

/// `10^n` fits below `10^9` for `n <= 9`.
proof fn lemma_pow10_le(n: nat)
    requires
        n <= 9,
    ensures
        pow10(n) <= 1_000_000_000,
    decreases 9 - n,
{
    reveal_with_fuel(pow10, 10);
    if n < 9 {
        lemma_pow10_le(n + 1);
    }
}

} // verus!
