//! A linter for GitHub Flavored Markdown (CommonMark 0.29 + GFM extensions).
//!
//! | Rule ID | Category       | Severity | Description                                           |
//! |---------|----------------|----------|-------------------------------------------------------|
//! | MD001   | Headings       | error    | ATX headings must have a space after `#`              |
//! | MD002   | Headings       | warning  | No trailing `#` sequences unless balanced or empty    |
//! | MD003   | Headings       | warning  | Setext underline must span the full title             |
//! | MD004   | Thematic break | warning  | Consistent thematic-break character                   |
//! | MD005   | Code fence     | error    | Fenced code block must have a matching closing fence  |
//! | MD006   | Code fence     | error    | Closing fence must not have an info string            |
//! | MD007   | Lists          | warning  | Unordered list markers must be consistent             |
//! | MD008   | Lists          | warning  | Ordered list must start at 1                          |
//! | MD009   | Lists          | error    | Task list items must use `[ ]` or `[x]`               |
//! | MD010   | Tables         | error    | GFM table must have a header separator row            |
//! | MD011   | Tables         | warning  | Table columns must be consistent across rows          |
//! | MD012   | Whitespace     | warning  | No trailing whitespace (except 2 spaces = hard break) |
//! | MD013   | Whitespace     | warning  | No tabs (use spaces)                                  |
//! | MD014   | Whitespace     | warning  | No consecutive blank lines (max 1)                    |
//! | MD015   | Links          | warning  | Inline image must have non-empty alt text             |
//! | MD016   | Links          | error    | Reference link must have a matching definition        |
//!
//! Every rule is a function from the lines of the document to its
//! diagnostics, stated as a spec function and proved of the code that
//! computes it; `lint` runs them all and sorts the result into reading order.

pub mod laws;
pub mod rules;
pub mod text;

use vstd::prelude::*;

use crate::rules::code_fences::fences;
use crate::rules::headings::headings;
use crate::rules::links::links;
use crate::rules::lists::lists;
use crate::rules::tables::tables;
use crate::rules::thematic_break::breaks;
use crate::rules::whitespace::whitespace;
use crate::text::{chars_of, lines, seqs, split_lines};

verus! {

/// Severity level of a diagnostic.
#[derive(Debug, Clone, Copy, PartialEq, Eq, Structural)]
pub enum Severity {
    Error,
    Warning,
}

/// A single lint diagnostic.
#[derive(Debug, Clone, PartialEq, Eq)]
pub struct Diagnostic {
    /// 1-based line number.
    pub line: usize,
    /// 1-based column number (character position).
    pub col: usize,
    /// Rule identifier, e.g. `"MD001"`.
    pub rule: &'static str,
    /// Human-readable description.
    pub message: String,
    /// Severity level.
    pub severity: Severity,
}

/// The mathematical value of a diagnostic.
pub struct DiagnosticView {
    pub line: nat,
    pub col: nat,
    pub rule: Seq<char>,
    pub message: Seq<char>,
    pub severity: Severity,
}

impl View for Diagnostic {
    type V = DiagnosticView;

    open spec fn view(&self) -> DiagnosticView {
        DiagnosticView {
            line: self.line as nat,
            col: self.col as nat,
            rule: self.rule@,
            message: self.message@,
            severity: self.severity,
        }
    }
}

impl DiagnosticView {
    /// A diagnostic with the given fields.
    pub open spec fn new(line: nat, col: nat, rule: Seq<char>, message: Seq<char>, severity: Severity) -> Self {
        DiagnosticView { line, col, rule, message, severity }
    }
}

/// The values of a sequence of diagnostics.
pub open spec fn views(s: Seq<Diagnostic>) -> Seq<DiagnosticView> {
    s.map_values(|d: Diagnostic| d@)
}

/// The value of an optional diagnostic.
pub open spec fn opt_view(o: Option<Diagnostic>) -> Option<DiagnosticView> {
    match o {
        Some(d) => Some(d@),
        None => None,
    }
}

/// The diagnostics held by an option, as a sequence of at most one.
pub open spec fn opt_seq(o: Option<DiagnosticView>) -> Seq<DiagnosticView> {
    match o {
        Some(d) => seq![d],
        None => seq![],
    }
}

impl Severity {
    /// The name of the severity, as it is printed: `error` or `warning`.
    pub open spec fn name(self) -> Seq<char> {
        match self {
            Severity::Error => "error"@,
            Severity::Warning => "warning"@,
        }
    }

    /// The printed form of the severity.
    pub fn to_string(&self) -> (r: String)
        ensures
            r@ == self.name(),
    {
        match self {
            Severity::Error => String::from_str("error"),
            Severity::Warning => String::from_str("warning"),
        }
    }
}

impl Diagnostic {
    /// The printed form of a diagnostic: `line:col: severity [rule] message`.
    pub open spec fn display(v: DiagnosticView) -> Seq<char> {
        text::decimal(v.line) + ":"@ + text::decimal(v.col) + ": "@ + v.severity.name() + " ["@ + v.rule + "] "@
            + v.message
    }

    /// The printed form of the diagnostic.
    pub fn to_string(&self) -> (r: String)
        ensures
            r@ == Diagnostic::display(self@),
    {
        let mut m = text::decimal_of(self.line);
        text::push_str(&mut m, ":");
        let mut c = text::decimal_of(self.col);
        m.append(&mut c);
        text::push_str(&mut m, ": ");
        let sev = self.severity.to_string();
        text::push_str(&mut m, sev.as_str());
        text::push_str(&mut m, " [");
        text::push_str(&mut m, self.rule);
        text::push_str(&mut m, "] ");
        text::push_str(&mut m, self.message.as_str());
        text::string_from_chars(&m)
    }
}

/// Builds a diagnostic whose message is the given characters.
pub(crate) fn new_diagnostic(line: usize, col: usize, rule: &'static str, message: &Vec<char>, severity: Severity) -> (d: Diagnostic)
    ensures
        d@ == DiagnosticView::new(line as nat, col as nat, rule@, message@, severity),
{
    Diagnostic { line, col, rule, message: text::string_from_chars(message), severity }
}

/// Appends `d` to `diags`.
pub(crate) fn push_diagnostic(diags: &mut Vec<Diagnostic>, d: Diagnostic)
    ensures
        views(final(diags)@) == views(old(diags)@).push(d@),
{
    let ghost old_d = diags@;
    diags.push(d);
    assert(views(diags@) =~= views(old_d).push(d@));
}

/// Appends the diagnostic that `d` holds, if any, to `diags`.
pub(crate) fn push_opt(diags: &mut Vec<Diagnostic>, d: Option<Diagnostic>)
    ensures
        views(final(diags)@) == views(old(diags)@) + opt_seq(opt_view(d)),
{
    match d {
        Some(d) => {
            push_diagnostic(diags, d);
            assert(views(old(diags)@).push(d@) =~= views(old(diags)@) + seq![d@]);
        },
        None => {
            assert(views(diags@) =~= views(diags@) + Seq::<DiagnosticView>::empty());
        },
    }
}

/// `a` comes no later than `b` in reading order: by line, then by column.
pub open spec fn position_le(a: DiagnosticView, b: DiagnosticView) -> bool {
    a.line < b.line || (a.line == b.line && a.col <= b.col)
}

/// `d` inserted into `s` after every element that does not come after it.
pub open spec fn insert_by_position(s: Seq<DiagnosticView>, d: DiagnosticView) -> Seq<DiagnosticView>
    decreases s.len(),
{
    if s.len() == 0 {
        seq![d]
    } else if position_le(s.last(), d) {
        s.push(d)
    } else {
        insert_by_position(s.drop_last(), d).push(s.last())
    }
}

/// `slice::sort_by_key` with the key `(line, col)`: the stable sort of `s`
/// into reading order.
pub open spec fn sort_by_position(s: Seq<DiagnosticView>) -> Seq<DiagnosticView>
    decreases s.len(),
{
    if s.len() == 0 {
        seq![]
    } else {
        insert_by_position(sort_by_position(s.drop_last()), s.last())
    }
}

/// The diagnostics of every rule, in the order the rules run.
pub open spec fn all_rules(ls: Seq<Seq<char>>) -> Seq<DiagnosticView> {
    headings(ls) + breaks(ls) + fences(ls) + lists(ls) + tables(ls) + whitespace(ls) + links(ls)
}

/// The inputs on which `lint` is defined: the message excerpts of MD001
/// and MD009 can be cut out of their lines.
pub open spec fn lintable(source: Seq<char>) -> bool {
    &&& rules::headings::excerpts_ok(lines(source))
    &&& rules::lists::excerpts_ok(lines(source))
}

/// The diagnostics of `source`: those of every rule, sorted into reading
/// order (stably, so diagnostics at one position keep the rules' order).
pub open spec fn lint_spec(source: Seq<char>) -> Seq<DiagnosticView> {
    sort_by_position(all_rules(lines(source)))
}

/// Lint a markdown string and return all diagnostics.
pub fn lint(source: &str) -> (r: Vec<Diagnostic>)
    requires
        lintable(source@),
    ensures
        views(r@) == lint_spec(source@),
{
    let mut diags: Vec<Diagnostic> = Vec::new();

    rules::headings::check(source, &mut diags);
    rules::thematic_break::check(source, &mut diags);
    rules::code_fences::check(source, &mut diags);
    rules::lists::check(source, &mut diags);
    rules::tables::check(source, &mut diags);
    rules::whitespace::check(source, &mut diags);
    rules::links::check(source, &mut diags);
    assert(views(diags@) =~= all_rules(lines(source@)));

    sort_by_position_exec(diags)
}

/// Whether `lint` accepts `source`: the MD001 and MD009 message excerpts
/// of every line can be cut out of it.
pub fn lint_accepts(source: &str) -> (r: bool)
    ensures
        r == lintable(source@),
{
    let chars = chars_of(source);
    let ls = split_lines(&chars);
    let ghost s = seqs(ls@);
    let mut i: usize = 0;
    while i < ls.len()
        invariant
            i <= ls.len(),
            s == seqs(ls@),
            s == lines(source@),
            forall|j: int| 0 <= j < i ==> rules::headings::md001_excerpt_ok(#[trigger] s[j]),
            forall|j: int| 0 <= j < i ==> rules::lists::md009_excerpt_ok(#[trigger] s[j]),
        decreases ls.len() - i,
    {
        assert(ls[i as int]@ == s[i as int]);
        if !rules::headings::md001_excerpt_fits(&ls[i]) || !rules::lists::md009_excerpt_fits(&ls[i]) {
            return false;
        }
        i = i + 1;
    }
    true
}

/// Some diagnostic of `ds` has severity `sev`.
pub open spec fn has_severity(ds: Seq<DiagnosticView>, sev: Severity) -> bool {
    exists|k: int| 0 <= k < ds.len() && (#[trigger] ds[k]).severity == sev
}

/// The command line's exit status for the diagnostics `ds` of all its
/// files: 1 when any is an error; otherwise 2 when any is a warning and
/// warnings are not suppressed; otherwise 0.
pub open spec fn spec_exit_code(ds: Seq<DiagnosticView>, no_warnings: bool) -> i32 {
    if has_severity(ds, Severity::Error) {
        1
    } else if !no_warnings && has_severity(ds, Severity::Warning) {
        2
    } else {
        0
    }
}

/// The exit status for the diagnostics `diags`, with warnings suppressed
/// when `no_warnings` holds.
pub fn exit_code(diags: &Vec<Diagnostic>, no_warnings: bool) -> (r: i32)
    ensures
        r == spec_exit_code(views(diags@), no_warnings),
{
    let ghost ds = views(diags@);
    let mut any_error = false;
    let mut any_warning = false;
    let mut i: usize = 0;
    while i < diags.len()
        invariant
            i <= diags.len(),
            ds == views(diags@),
            any_error == exists|k: int| 0 <= k < i && (#[trigger] ds[k]).severity == Severity::Error,
            any_warning == exists|k: int| 0 <= k < i && (#[trigger] ds[k]).severity == Severity::Warning,
        decreases diags.len() - i,
    {
        assert(ds[i as int] == diags[i as int]@);
        match diags[i].severity {
            Severity::Error => any_error = true,
            Severity::Warning => any_warning = true,
        }
        i = i + 1;
    }
    if any_error {
        1
    } else if !no_warnings && any_warning {
        2
    } else {
        0
    }
}

/// Whether `a` comes no later than `b` in reading order.
fn le_by_position(a: &Diagnostic, b: &Diagnostic) -> (r: bool)
    ensures
        r == position_le(a@, b@),
{
    a.line < b.line || (a.line == b.line && a.col <= b.col)
}

/// Inserting where the elements after stop coming before `d`.
proof fn lemma_insert_by_position(s: Seq<DiagnosticView>, d: DiagnosticView, p: int)
    requires
        0 <= p <= s.len(),
        forall|j: int| p <= j < s.len() ==> !position_le(#[trigger] s[j], d),
        p == 0 || position_le(s[p - 1], d),
    ensures
        insert_by_position(s, d) == s.insert(p, d),
    decreases s.len() - p,
{
    if s.len() == 0 {
        assert(s.insert(p, d) =~= seq![d]);
    } else if p == s.len() {
        assert(s.insert(p, d) =~= s.push(d));
    } else {
        lemma_insert_by_position(s.drop_last(), d, p);
        assert(s.drop_last().insert(p, d).push(s.last()) =~= s.insert(p, d));
    }
}

/// Stable insertion sort into reading order.
fn sort_by_position_exec(diags: Vec<Diagnostic>) -> (r: Vec<Diagnostic>)
    ensures
        views(r@) == sort_by_position(views(diags@)),
{
    let ghost all = views(diags@);
    let mut rest = diags;
    let mut sorted: Vec<Diagnostic> = Vec::new();
    let ghost mut k: int = 0;
    assert(all.take(0) =~= Seq::<DiagnosticView>::empty());
    while rest.len() > 0
        invariant
            0 <= k <= all.len(),
            views(rest@) == all.skip(k),
            views(sorted@) == sort_by_position(all.take(k)),
        decreases rest.len(),
    {
        let ghost old_rest = rest@;
        assert(views(old_rest).len() == old_rest.len());
        assert(k < all.len());
        let d = rest.remove(0);
        let ghost dv = d@;
        proof {
            assert(views(old_rest)[0] == dv);
            assert(all.skip(k)[0] == all[k]);
            assert(views(rest@) =~= views(old_rest).drop_first());
            assert(views(rest@) =~= all.skip(k + 1));
            assert(dv == all[k]);
            assert(all.take(k + 1).drop_last() =~= all.take(k));
        }
        let mut p = sorted.len();
        while p > 0 && !le_by_position(&sorted[p - 1], &d)
            invariant
                p <= sorted.len(),
                dv == d@,
                forall|j: int| p <= j < sorted.len() ==> !position_le(#[trigger] views(sorted@)[j], dv),
            decreases p,
        {
            p = p - 1;
        }
        proof {
            lemma_insert_by_position(views(sorted@), dv, p as int);
        }
        let ghost old_sorted = sorted@;
        sorted.insert(p, d);
        proof {
            assert(views(sorted@) =~= views(old_sorted).insert(p as int, dv));
            k = k + 1;
        }
    }
    proof {
        assert(all.skip(k).len() == 0);
        assert(all.take(k) =~= all);
    }
    sorted
}

} // verus!
