//! Properties of the linter as a whole.

use vstd::prelude::*;

use crate::rules::code_fences::{fences, fences_from, Fence};
use crate::rules::headings::{headings, headings_from};
use crate::rules::links::{images_from, lemma_close_bracket_range, links, links_from, references_from, close_bracket};
use crate::rules::lists::{lists, lists_from, spec_unordered_marker};
use crate::rules::tables::{tables, tables_from, TableScan};
use crate::rules::{spec_fence_close, spec_fence_open};
use crate::rules::thematic_break::{breaks, breaks_from, spec_is_thematic_break};
use crate::rules::whitespace::{
    blank_diagnostic, is_blank, is_hard_break, tab_diagnostic, trailing_diagnostic, whitespace, whitespace_from,
};
use crate::rules::code_fences::{fence_candidate, spec_opening_fence};
use crate::rules::headings::spec_strip_atx_closing;
use crate::text::{
    ends_with, lemma_trailing_eq_le, lemma_trim_end_idempotent, lines, trailing_eq, trailing_ws, trim, trim_end,
    trim_start,
};
use crate::{all_rules, Severity, insert_by_position, lint_spec, position_le, sort_by_position, DiagnosticView};

verus! {

broadcast use vstd::seq_lib::group_to_multiset_ensures;

/// Every diagnostic comes no later, in reading order, than those after it.
pub open spec fn in_reading_order(s: Seq<DiagnosticView>) -> bool {
    forall|i: int, j: int| 0 <= i < j < s.len() ==> position_le(#[trigger] s[i], #[trigger] s[j])
}

/// Inserting adds exactly the inserted diagnostic.
proof fn lemma_insert_multiset(s: Seq<DiagnosticView>, d: DiagnosticView)
    ensures
        insert_by_position(s, d).to_multiset() == s.to_multiset().insert(d),
    decreases s.len(),
{
    if s.len() == 0 {
        assert(seq![d] =~= s.push(d));
    } else if position_le(s.last(), d) {
    } else {
        lemma_insert_multiset(s.drop_last(), d);
        assert(s.drop_last().push(s.last()) =~= s);
        assert(s.drop_last().to_multiset().insert(s.last()) == s.to_multiset());
        assert(s.drop_last().to_multiset().insert(d).insert(s.last()) =~= s.drop_last().to_multiset().insert(
            s.last(),
        ).insert(d));
    }
}

/// Sorting keeps exactly the diagnostics it is given.
proof fn lemma_sort_multiset(s: Seq<DiagnosticView>)
    ensures
        sort_by_position(s).to_multiset() == s.to_multiset(),
    decreases s.len(),
{
    if s.len() > 0 {
        lemma_sort_multiset(s.drop_last());
        lemma_insert_multiset(sort_by_position(s.drop_last()), s.last());
        assert(s.drop_last().push(s.last()) =~= s);
    }
}

/// Inserting into an ordered sequence keeps it ordered.
proof fn lemma_insert_ordered(s: Seq<DiagnosticView>, d: DiagnosticView)
    requires
        in_reading_order(s),
    ensures
        in_reading_order(insert_by_position(s, d)),
    decreases s.len(),
{
    if s.len() == 0 {
    } else if position_le(s.last(), d) {
        let r = s.push(d);
        assert forall|i: int, j: int| 0 <= i < j < r.len() implies position_le(#[trigger] r[i], #[trigger] r[j]) by {
            if j == s.len() {
                if i < s.len() - 1 {
                    assert(position_le(s[i], s[s.len() - 1]));
                }
            } else {
                assert(position_le(s[i], s[j]));
            }
        }
    } else {
        let t = s.drop_last();
        let last = s.last();
        assert(in_reading_order(t)) by {
            assert forall|i: int, j: int| 0 <= i < j < t.len() implies position_le(#[trigger] t[i], #[trigger] t[j]) by {
                assert(position_le(s[i], s[j]));
            }
        }
        lemma_insert_ordered(t, d);
        lemma_insert_multiset(t, d);
        let u = insert_by_position(t, d);
        let r = u.push(last);
        assert forall|i: int, j: int| 0 <= i < j < r.len() implies position_le(#[trigger] r[i], #[trigger] r[j]) by {
            if j == u.len() {
                let x = u[i];
                assert(u.to_multiset().count(x) > 0);
                assert(t.to_multiset().insert(d).count(x) > 0);
                if x != d {
                    assert(t.to_multiset().count(x) > 0);
                    assert(t.contains(x));
                    let k = choose|k: int| 0 <= k < t.len() && t[k] == x;
                    assert(position_le(s[k], s[s.len() - 1]));
                }
            } else {
                assert(position_le(u[i], u[j]));
            }
        }
    }
}

/// Sorting yields reading order.
proof fn lemma_sort_ordered(s: Seq<DiagnosticView>)
    ensures
        in_reading_order(sort_by_position(s)),
    decreases s.len(),
{
    if s.len() > 0 {
        lemma_sort_ordered(s.drop_last());
        lemma_insert_ordered(sort_by_position(s.drop_last()), s.last());
    }
}

/// `lint` reports its diagnostics in reading order: by line, then by column.
pub proof fn law_lint_in_reading_order(source: Seq<char>)
    ensures
        in_reading_order(lint_spec(source)),
{
    lemma_sort_ordered(all_rules(lines(source)));
}

/// `lint` reports exactly the diagnostics of the seven rule checks, each as
/// many times as the checks report it: it only reorders them.
pub proof fn law_lint_reports_every_rule(source: Seq<char>)
    ensures
        lint_spec(source).to_multiset() == all_rules(lines(source)).to_multiset(),
{
    lemma_sort_multiset(all_rules(lines(source)));
}

/// The diagnostics of `s` at line `line` and column `col`, in the order in
/// which they stand in `s`.
pub open spec fn at_position(s: Seq<DiagnosticView>, line: nat, col: nat) -> Seq<DiagnosticView>
    decreases s.len(),
{
    if s.len() == 0 {
        seq![]
    } else if s.last().line == line && s.last().col == col {
        at_position(s.drop_last(), line, col).push(s.last())
    } else {
        at_position(s.drop_last(), line, col)
    }
}

/// `d` alone, if it stands at line `line` and column `col`.
pub open spec fn at_position_one(d: DiagnosticView, line: nat, col: nat) -> Seq<DiagnosticView> {
    if d.line == line && d.col == col {
        seq![d]
    } else {
        seq![]
    }
}

/// Inserting `d` puts it after every diagnostic at its own position.
proof fn lemma_insert_stable(t: Seq<DiagnosticView>, d: DiagnosticView, line: nat, col: nat)
    ensures
        at_position(insert_by_position(t, d), line, col) == at_position(t, line, col) + at_position_one(
            d,
            line,
            col,
        ),
    decreases t.len(),
{
    if t.len() == 0 {
        let r = insert_by_position(t, d);
        assert(r.drop_last() =~= t);
        assert(at_position(t, line, col) =~= Seq::<DiagnosticView>::empty());
        assert(at_position(r, line, col) =~= at_position_one(d, line, col));
    } else if position_le(t.last(), d) {
        let r = t.push(d);
        assert(r.drop_last() =~= t);
        assert(at_position(r, line, col) =~= at_position(t, line, col) + at_position_one(d, line, col));
    } else {
        let u = insert_by_position(t.drop_last(), d);
        let r = u.push(t.last());
        lemma_insert_stable(t.drop_last(), d, line, col);
        assert(r.drop_last() =~= u);
        let a = at_position(t.drop_last(), line, col);
        let x = at_position_one(t.last(), line, col);
        let y = at_position_one(d, line, col);
        assert(at_position(t, line, col) =~= a + x);
        assert(at_position(r, line, col) =~= a + y + x);
        assert(x.len() == 0 || y.len() == 0);
        assert(a + y + x =~= a + x + y);
    }
}

/// Sorting keeps the diagnostics at each position in their order.
proof fn lemma_sort_stable(s: Seq<DiagnosticView>, line: nat, col: nat)
    ensures
        at_position(sort_by_position(s), line, col) == at_position(s, line, col),
    decreases s.len(),
{
    if s.len() > 0 {
        lemma_sort_stable(s.drop_last(), line, col);
        lemma_insert_stable(sort_by_position(s.drop_last()), s.last(), line, col);
        assert(at_position(s, line, col) =~= at_position(s.drop_last(), line, col) + at_position_one(
            s.last(),
            line,
            col,
        ));
    }
}

/// `lint` sorts stably: the diagnostics it reports at one line and column
/// come in the order in which the rule checks report them.
pub proof fn law_lint_stable(source: Seq<char>, line: nat, col: nat)
    ensures
        at_position(lint_spec(source), line, col) == at_position(all_rules(lines(source)), line, col),
{
    lemma_sort_stable(all_rules(lines(source)), line, col);
}

/// The severity that the rule table documents for each rule identifier.
pub open spec fn documented_severity(rule: Seq<char>) -> Option<Severity> {
    if rule == "MD001"@ {
        Some(Severity::Error)
    } else if rule == "MD002"@ {
        Some(Severity::Warning)
    } else if rule == "MD003"@ {
        Some(Severity::Warning)
    } else if rule == "MD004"@ {
        Some(Severity::Warning)
    } else if rule == "MD005"@ {
        Some(Severity::Error)
    } else if rule == "MD006"@ {
        Some(Severity::Error)
    } else if rule == "MD007"@ {
        Some(Severity::Warning)
    } else if rule == "MD008"@ {
        Some(Severity::Warning)
    } else if rule == "MD009"@ {
        Some(Severity::Error)
    } else if rule == "MD010"@ {
        Some(Severity::Error)
    } else if rule == "MD011"@ {
        Some(Severity::Warning)
    } else if rule == "MD012"@ {
        Some(Severity::Warning)
    } else if rule == "MD013"@ {
        Some(Severity::Warning)
    } else if rule == "MD014"@ {
        Some(Severity::Warning)
    } else if rule == "MD015"@ {
        Some(Severity::Warning)
    } else if rule == "MD016"@ {
        Some(Severity::Error)
    } else {
        None
    }
}

/// The documented severity of each rule identifier.
pub proof fn lemma_rule_ids()
    ensures
        documented_severity("MD001"@) == Some(Severity::Error),
        documented_severity("MD002"@) == Some(Severity::Warning),
        documented_severity("MD003"@) == Some(Severity::Warning),
        documented_severity("MD004"@) == Some(Severity::Warning),
        documented_severity("MD005"@) == Some(Severity::Error),
        documented_severity("MD006"@) == Some(Severity::Error),
        documented_severity("MD007"@) == Some(Severity::Warning),
        documented_severity("MD008"@) == Some(Severity::Warning),
        documented_severity("MD009"@) == Some(Severity::Error),
        documented_severity("MD010"@) == Some(Severity::Error),
        documented_severity("MD011"@) == Some(Severity::Warning),
        documented_severity("MD012"@) == Some(Severity::Warning),
        documented_severity("MD013"@) == Some(Severity::Warning),
        documented_severity("MD014"@) == Some(Severity::Warning),
        documented_severity("MD015"@) == Some(Severity::Warning),
        documented_severity("MD016"@) == Some(Severity::Error),
        "MD001"@.len() == 5 && "MD001"@[3] == '0' && "MD001"@[4] == '1',
        "MD002"@.len() == 5 && "MD002"@[3] == '0' && "MD002"@[4] == '2',
        "MD003"@.len() == 5 && "MD003"@[3] == '0' && "MD003"@[4] == '3',
        "MD004"@.len() == 5 && "MD004"@[3] == '0' && "MD004"@[4] == '4',
        "MD005"@.len() == 5 && "MD005"@[3] == '0' && "MD005"@[4] == '5',
        "MD006"@.len() == 5 && "MD006"@[3] == '0' && "MD006"@[4] == '6',
        "MD007"@.len() == 5 && "MD007"@[3] == '0' && "MD007"@[4] == '7',
        "MD008"@.len() == 5 && "MD008"@[3] == '0' && "MD008"@[4] == '8',
        "MD009"@.len() == 5 && "MD009"@[3] == '0' && "MD009"@[4] == '9',
        "MD010"@.len() == 5 && "MD010"@[3] == '1' && "MD010"@[4] == '0',
        "MD011"@.len() == 5 && "MD011"@[3] == '1' && "MD011"@[4] == '1',
        "MD012"@.len() == 5 && "MD012"@[3] == '1' && "MD012"@[4] == '2',
        "MD013"@.len() == 5 && "MD013"@[3] == '1' && "MD013"@[4] == '3',
        "MD014"@.len() == 5 && "MD014"@[3] == '1' && "MD014"@[4] == '4',
        "MD015"@.len() == 5 && "MD015"@[3] == '1' && "MD015"@[4] == '5',
        "MD016"@.len() == 5 && "MD016"@[3] == '1' && "MD016"@[4] == '6',
{
    reveal_strlit("MD001");
    reveal_strlit("MD002");
    reveal_strlit("MD003");
    reveal_strlit("MD004");
    reveal_strlit("MD005");
    reveal_strlit("MD006");
    reveal_strlit("MD007");
    reveal_strlit("MD008");
    reveal_strlit("MD009");
    reveal_strlit("MD010");
    reveal_strlit("MD011");
    reveal_strlit("MD012");
    reveal_strlit("MD013");
    reveal_strlit("MD014");
    reveal_strlit("MD015");
    reveal_strlit("MD016");
    assert("MD001"@[3] == '0' && "MD001"@[4] == '1');
    assert("MD002"@[3] == '0' && "MD002"@[4] == '2');
    assert("MD003"@[3] == '0' && "MD003"@[4] == '3');
    assert("MD004"@[3] == '0' && "MD004"@[4] == '4');
    assert("MD005"@[3] == '0' && "MD005"@[4] == '5');
    assert("MD006"@[3] == '0' && "MD006"@[4] == '6');
    assert("MD007"@[3] == '0' && "MD007"@[4] == '7');
    assert("MD008"@[3] == '0' && "MD008"@[4] == '8');
    assert("MD009"@[3] == '0' && "MD009"@[4] == '9');
    assert("MD010"@[3] == '1' && "MD010"@[4] == '0');
    assert("MD011"@[3] == '1' && "MD011"@[4] == '1');
    assert("MD012"@[3] == '1' && "MD012"@[4] == '2');
    assert("MD013"@[3] == '1' && "MD013"@[4] == '3');
    assert("MD014"@[3] == '1' && "MD014"@[4] == '4');
    assert("MD015"@[3] == '1' && "MD015"@[4] == '5');
    assert("MD016"@[3] == '1' && "MD016"@[4] == '6');
}

/// A diagnostic of a document of `n` lines points inside it (a line from 1
/// to `n`, a column from 1), names a rule of the table, and has the
/// severity the table gives that rule.
pub open spec fn well_placed(d: DiagnosticView, n: nat) -> bool {
    &&& 1 <= d.line <= n
    &&& d.col >= 1
    &&& documented_severity(d.rule) is Some
    &&& d.severity == documented_severity(d.rule).unwrap()
}

/// Every diagnostic of `s` is well placed in a document of `n` lines.
pub open spec fn all_well_placed(s: Seq<DiagnosticView>, n: nat) -> bool {
    forall|k: int| 0 <= k < s.len() ==> well_placed(#[trigger] s[k], n)
}

proof fn lemma_placed_concat(a: Seq<DiagnosticView>, b: Seq<DiagnosticView>, n: nat)
    requires
        all_well_placed(a, n),
        all_well_placed(b, n),
    ensures
        all_well_placed(a + b, n),
{
    assert forall|k: int| 0 <= k < (a + b).len() implies well_placed(#[trigger] (a + b)[k], n) by {
        if k < a.len() {
            assert((a + b)[k] == a[k]);
        } else {
            assert((a + b)[k] == b[k - a.len()]);
        }
    }
}

/// The rules that the heading check reports.
pub open spec fn heading_rules() -> Set<Seq<char>> {
    set!["MD001"@, "MD002"@, "MD003"@]
}

/// The rule that the thematic-break check reports.
pub open spec fn break_rules() -> Set<Seq<char>> {
    set!["MD004"@]
}

/// The rules that the code-fence check reports.
pub open spec fn fence_rules() -> Set<Seq<char>> {
    set!["MD005"@, "MD006"@]
}

/// The rules that the list check reports.
pub open spec fn list_rules() -> Set<Seq<char>> {
    set!["MD007"@, "MD008"@, "MD009"@]
}

/// The rules that the table check reports.
pub open spec fn table_rules() -> Set<Seq<char>> {
    set!["MD010"@, "MD011"@]
}

/// The rules that the whitespace check reports.
pub open spec fn whitespace_rules() -> Set<Seq<char>> {
    set!["MD012"@, "MD013"@, "MD014"@]
}

/// The rules that the link check reports.
pub open spec fn link_rules() -> Set<Seq<char>> {
    set!["MD015"@, "MD016"@]
}

/// A well-placed diagnostic of one of the rules `ids`.
pub open spec fn placed_in(d: DiagnosticView, n: nat, ids: Set<Seq<char>>) -> bool {
    well_placed(d, n) && ids.contains(d.rule)
}

/// Every diagnostic of `s` is well placed in a document of `n` lines and
/// belongs to one of the rules `ids`.
pub open spec fn all_placed_in(s: Seq<DiagnosticView>, n: nat, ids: Set<Seq<char>>) -> bool {
    forall|k: int| 0 <= k < s.len() ==> placed_in(#[trigger] s[k], n, ids)
}

proof fn lemma_placed_in_concat(ids: Set<Seq<char>>, a: Seq<DiagnosticView>, b: Seq<DiagnosticView>, n: nat)
    requires
        all_placed_in(a, n, ids),
        all_placed_in(b, n, ids),
    ensures
        all_placed_in(a + b, n, ids),
{
    assert forall|k: int| 0 <= k < (a + b).len() implies placed_in(#[trigger] (a + b)[k], n, ids) by {
        if k < a.len() {
            assert((a + b)[k] == a[k]);
        } else {
            assert((a + b)[k] == b[k - a.len()]);
        }
    }
}

proof fn lemma_placed_in_well(s: Seq<DiagnosticView>, n: nat, ids: Set<Seq<char>>)
    requires
        all_placed_in(s, n, ids),
    ensures
        all_well_placed(s, n),
{
    assert forall|k: int| 0 <= k < s.len() implies well_placed(#[trigger] s[k], n) by {
        assert(placed_in(s[k], n, ids));
    }
}

proof fn lemma_headings_placed(ls: Seq<Seq<char>>, i: int)
    requires
        0 <= i,
    ensures
        all_placed_in(headings_from(ls, i), ls.len(), heading_rules()),
    decreases ls.len() - i,
{
    lemma_rule_ids();
    if i < ls.len() {
        let raw = ls[i];
        let trimmed = crate::text::trim_start(raw);
        if crate::text::starts_with(trimmed, '#') {
            lemma_headings_placed(ls, i + 1);
            lemma_placed_in_concat(heading_rules(), 
                crate::opt_seq(crate::rules::headings::atx_diagnostic(raw, (i + 1) as nat)),
                headings_from(ls, i + 1),
                ls.len(),
            );
        } else if i + 1 < ls.len() && crate::rules::headings::spec_is_setext_underline(
            crate::text::trim_end(ls[i + 1]),
        ) && trimmed.len() > 0 {
            lemma_headings_placed(ls, i + 2);
            lemma_placed_in_concat(heading_rules(), 
                crate::rules::headings::setext_diagnostic(raw, crate::text::trim_end(ls[i + 1]), (i + 2) as nat),
                headings_from(ls, i + 2),
                ls.len(),
            );
        } else {
            lemma_headings_placed(ls, i + 1);
        }
    }
}

proof fn lemma_breaks_placed(ls: Seq<Seq<char>>, i: int, first: Option<char>)
    requires
        0 <= i,
    ensures
        all_placed_in(breaks_from(ls, i, first), ls.len(), break_rules()),
    decreases ls.len() - i,
{
    lemma_rule_ids();
    if i < ls.len() {
        match crate::rules::thematic_break::spec_is_thematic_break(ls[i]) {
            None => lemma_breaks_placed(ls, i + 1, first),
            Some(ch) => match first {
                None => lemma_breaks_placed(ls, i + 1, Some(ch)),
                Some(fc) => {
                    lemma_breaks_placed(ls, i + 1, first);
                    if fc != ch {
                        lemma_placed_in_concat(break_rules(), 
                            seq![crate::rules::thematic_break::mismatch_diagnostic(fc, ch, (i + 1) as nat)],
                            breaks_from(ls, i + 1, first),
                            ls.len(),
                        );
                    }
                },
            },
        }
    }
}

proof fn lemma_fences_placed(ls: Seq<Seq<char>>, i: int, open: Option<(Fence, nat)>)
    requires
        0 <= i,
        open matches Some((_f, line)) ==> 1 <= line <= i && line <= ls.len(),
    ensures
        all_placed_in(fences_from(ls, i, open), ls.len(), fence_rules()),
    decreases ls.len() - i,
{
    lemma_rule_ids();
    if i < ls.len() {
        match open {
            None => match crate::rules::code_fences::spec_opening_fence(ls[i]) {
                Some(f) => lemma_fences_placed(ls, i + 1, Some((f, (i + 1) as nat))),
                None => lemma_fences_placed(ls, i + 1, None),
            },
            Some((f, open_line)) => if crate::rules::code_fences::closes(ls[i], f) {
                lemma_fences_placed(ls, i + 1, None);
                lemma_placed_in_concat(fence_rules(), 
                    crate::rules::code_fences::info_string_diagnostic(ls[i], f.ch, (i + 1) as nat),
                    fences_from(ls, i + 1, None),
                    ls.len(),
                );
            } else {
                lemma_fences_placed(ls, i + 1, open);
            },
        }
    }
}

proof fn lemma_lists_placed(ls: Seq<Seq<char>>, i: int, first: Option<char>, prev: bool)
    requires
        0 <= i,
    ensures
        all_placed_in(lists_from(ls, i, first, prev), ls.len(), list_rules()),
    decreases ls.len() - i,
{
    lemma_rule_ids();
    if i < ls.len() {
        let raw = ls[i];
        let line_no = (i + 1) as nat;
        let rest = lists_from(
            ls,
            i + 1,
            crate::rules::lists::next_first(raw, first),
            crate::rules::lists::next_prev(raw, prev),
        );
        lemma_lists_placed(
            ls,
            i + 1,
            crate::rules::lists::next_first(raw, first),
            crate::rules::lists::next_prev(raw, prev),
        );
        let a = crate::rules::lists::marker_diagnostic(raw, first, line_no);
        let b = crate::rules::lists::start_diagnostic(raw, prev, line_no);
        let c = crate::rules::lists::task_diagnostic(raw, line_no);
        lemma_placed_in_concat(list_rules(), a, b, ls.len());
        lemma_placed_in_concat(list_rules(), a + b, c, ls.len());
        lemma_placed_in_concat(list_rules(), a + b + c, rest, ls.len());
    }
}

proof fn lemma_tables_placed(ls: Seq<Seq<char>>, i: int, st: TableScan)
    requires
        0 <= i,
    ensures
        all_placed_in(tables_from(ls, i, st), ls.len(), table_rules()),
    decreases ls.len() - i, if st is Body { 1int } else { 0int },
{
    lemma_rule_ids();
    if i < ls.len() {
        match st {
            TableScan::Fence { ch, len } => {
                lemma_tables_placed(ls, i + 1, TableScan::Text);
                lemma_tables_placed(ls, i + 1, st);
            },
            TableScan::Body { header_cols } => if crate::rules::tables::spec_looks_like_table_row(ls[i]) {
                lemma_tables_placed(ls, i + 1, st);
                lemma_placed_in_concat(table_rules(), 
                    crate::rules::tables::row_count_diagnostic(
                        crate::rules::tables::spec_col_count(ls[i]),
                        header_cols,
                        (i + 1) as nat,
                    ),
                    tables_from(ls, i + 1, st),
                    ls.len(),
                );
            } else {
                lemma_tables_placed(ls, i, TableScan::Text);
            },
            TableScan::Text => match crate::rules::spec_fence_open(crate::text::trim_start(ls[i])) {
                Some((ch, len)) => lemma_tables_placed(ls, i + 1, TableScan::Fence { ch, len }),
                None => if crate::rules::tables::spec_looks_like_table_row(ls[i]) && i + 1 < ls.len() {
                    if crate::rules::tables::spec_is_separator_row(ls[i + 1]) {
                        let header_cols = crate::rules::tables::spec_col_count(ls[i]);
                        lemma_tables_placed(ls, i + 2, TableScan::Body { header_cols });
                        lemma_placed_in_concat(table_rules(), 
                            crate::rules::tables::separator_count_diagnostic(
                                crate::rules::tables::spec_col_count(ls[i + 1]),
                                header_cols,
                                (i + 2) as nat,
                            ),
                            tables_from(ls, i + 2, TableScan::Body { header_cols }),
                            ls.len(),
                        );
                    } else {
                        lemma_tables_placed(ls, i + 1, TableScan::Text);
                        lemma_placed_in_concat(table_rules(), 
                            seq![crate::rules::tables::missing_separator_diagnostic((i + 1) as nat)],
                            tables_from(ls, i + 1, TableScan::Text),
                            ls.len(),
                        );
                    }
                } else {
                    lemma_tables_placed(ls, i + 1, TableScan::Text);
                },
            },
        }
    }
}

proof fn lemma_whitespace_placed(ls: Seq<Seq<char>>, i: int, blanks: nat)
    requires
        0 <= i,
    ensures
        all_placed_in(whitespace_from(ls, i, blanks), ls.len(), whitespace_rules()),
    decreases ls.len() - i,
{
    lemma_rule_ids();
    if i < ls.len() {
        let raw = ls[i];
        let line_no = (i + 1) as nat;
        let next = if crate::rules::whitespace::is_blank(raw) { blanks + 1 } else { 0 };
        lemma_whitespace_placed(ls, i + 1, next);
        let a = crate::rules::whitespace::tab_diagnostic(raw, line_no);
        let b = crate::rules::whitespace::trailing_diagnostic(raw, line_no);
        let c = crate::rules::whitespace::blank_diagnostic(raw, blanks, line_no);
        lemma_placed_in_concat(whitespace_rules(), a, b, ls.len());
        lemma_placed_in_concat(whitespace_rules(), a + b, c, ls.len());
        lemma_placed_in_concat(whitespace_rules(), a + b + c, whitespace_from(ls, i + 1, next), ls.len());
    }
}

proof fn lemma_images_placed(l: Seq<char>, pos: int, line_no: nat, n: nat)
    requires
        0 <= pos,
        1 <= line_no <= n,
    ensures
        all_placed_in(images_from(l, pos, line_no), n, link_rules()),
    decreases l.len() - pos,
{
    lemma_rule_ids();
    if pos < l.len() {
        if pos + 1 < l.len() && l[pos] == '!' && l[pos + 1] == '[' && close_bracket(l, pos + 2) is Some {
            let close = close_bracket(l, pos + 2).unwrap();
            lemma_close_bracket_range(l, pos + 2, 0);
            lemma_images_placed(l, close + 1, line_no, n);
            lemma_placed_in_concat(link_rules(), 
                crate::rules::links::empty_alt_diagnostic(l, pos, close, line_no),
                images_from(l, close + 1, line_no),
                n,
            );
        } else {
            lemma_images_placed(l, pos + 1, line_no, n);
        }
    }
}

proof fn lemma_references_placed(l: Seq<char>, pos: int, defs: Seq<Seq<char>>, line_no: nat, n: nat)
    requires
        0 <= pos,
        1 <= line_no <= n,
    ensures
        all_placed_in(references_from(l, pos, defs, line_no), n, link_rules()),
    decreases l.len() - pos,
{
    lemma_rule_ids();
    if pos < l.len() {
        if l[pos] == '[' && close_bracket(l, pos + 1) is Some {
            let text_end = close_bracket(l, pos + 1).unwrap();
            lemma_close_bracket_range(l, pos + 1, 0);
            let text = l.subrange(pos + 1, text_end);
            let after = l.skip(text_end + 1);
            if crate::text::starts_with(after, '[') && close_bracket(l, text_end + 2) is Some {
                let ref_end = close_bracket(l, text_end + 2).unwrap();
                lemma_close_bracket_range(l, text_end + 2, 0);
                let label_raw = l.subrange(text_end + 2, ref_end);
                let label = if crate::text::trim(label_raw).len() == 0 { text } else { label_raw };
                lemma_references_placed(l, ref_end + 1, defs, line_no, n);
                lemma_placed_in_concat(link_rules(), 
                    crate::rules::links::full_reference_diagnostic(l, pos, label, defs, line_no),
                    references_from(l, ref_end + 1, defs, line_no),
                    n,
                );
            } else {
                lemma_references_placed(l, text_end + 1, defs, line_no, n);
                lemma_placed_in_concat(link_rules(), 
                    crate::rules::links::shortcut_reference_diagnostic(l, pos, text, after, defs, line_no),
                    references_from(l, text_end + 1, defs, line_no),
                    n,
                );
            }
        } else {
            lemma_references_placed(l, pos + 1, defs, line_no, n);
        }
    }
}

proof fn lemma_links_placed(ls: Seq<Seq<char>>, i: int, fence: Option<(char, nat)>, defs: Seq<Seq<char>>)
    requires
        0 <= i,
    ensures
        all_placed_in(links_from(ls, i, fence, defs), ls.len(), link_rules()),
    decreases ls.len() - i,
{
    if i < ls.len() {
        let t = crate::text::trim_start(ls[i]);
        match fence {
            None => match crate::rules::spec_fence_open(t) {
                Some(f) => lemma_links_placed(ls, i + 1, Some(f), defs),
                None => {
                    let line_no = (i + 1) as nat;
                    lemma_images_placed(ls[i], 0, line_no, ls.len());
                    lemma_references_placed(ls[i], 0, defs, line_no, ls.len());
                    lemma_links_placed(ls, i + 1, None, defs);
                    let a = images_from(ls[i], 0, line_no);
                    let b = references_from(ls[i], 0, defs, line_no);
                    lemma_placed_in_concat(link_rules(), a, b, ls.len());
                    lemma_placed_in_concat(link_rules(), a + b, links_from(ls, i + 1, None, defs), ls.len());
                },
            },
            Some((ch, len)) => {
                lemma_links_placed(ls, i + 1, None, defs);
                lemma_links_placed(ls, i + 1, fence, defs);
            },
        }
    }
}

/// Each rule check reports only its own rules, each diagnostic on a line of
/// the document and at a column of at least 1, with the severity of the rule
/// table: the heading check MD001–MD003, the thematic-break check MD004, the
/// code-fence check MD005–MD006, the list check MD007–MD009, the table check
/// MD010–MD011, the whitespace check MD012–MD014 and the link check
/// MD015–MD016.
pub proof fn law_checks_report_own_rules(ls: Seq<Seq<char>>)
    ensures
        all_placed_in(headings(ls), ls.len(), heading_rules()),
        all_placed_in(breaks(ls), ls.len(), break_rules()),
        all_placed_in(fences(ls), ls.len(), fence_rules()),
        all_placed_in(lists(ls), ls.len(), list_rules()),
        all_placed_in(tables(ls), ls.len(), table_rules()),
        all_placed_in(whitespace(ls), ls.len(), whitespace_rules()),
        all_placed_in(links(ls), ls.len(), link_rules()),
{
    lemma_headings_placed(ls, 0);
    lemma_breaks_placed(ls, 0, None);
    lemma_fences_placed(ls, 0, None);
    lemma_lists_placed(ls, 0, None, false);
    lemma_tables_placed(ls, 0, TableScan::Text);
    lemma_whitespace_placed(ls, 0, 0);
    lemma_links_placed(ls, 0, None, crate::rules::links::definitions(ls));
}

/// Every diagnostic of `lint` points inside the document (1-based line
/// within its lines, 1-based column), names one of the sixteen rules, and
/// carries the severity the rule table gives it.
pub proof fn law_diagnostics_well_placed(source: Seq<char>)
    ensures
        all_well_placed(lint_spec(source), lines(source).len()),
{
    let ls = lines(source);
    let n = ls.len();
    law_checks_report_own_rules(ls);
    lemma_placed_in_well(headings(ls), n, heading_rules());
    lemma_placed_in_well(breaks(ls), n, break_rules());
    lemma_placed_in_well(fences(ls), n, fence_rules());
    lemma_placed_in_well(lists(ls), n, list_rules());
    lemma_placed_in_well(tables(ls), n, table_rules());
    lemma_placed_in_well(whitespace(ls), n, whitespace_rules());
    lemma_placed_in_well(links(ls), n, link_rules());
    lemma_placed_concat(headings(ls), breaks(ls), n);
    lemma_placed_concat(headings(ls) + breaks(ls), fences(ls), n);
    lemma_placed_concat(headings(ls) + breaks(ls) + fences(ls), lists(ls), n);
    lemma_placed_concat(headings(ls) + breaks(ls) + fences(ls) + lists(ls), tables(ls), n);
    lemma_placed_concat(headings(ls) + breaks(ls) + fences(ls) + lists(ls) + tables(ls), whitespace(ls), n);
    lemma_placed_concat(
        headings(ls) + breaks(ls) + fences(ls) + lists(ls) + tables(ls) + whitespace(ls),
        links(ls),
        n,
    );
    let all = all_rules(ls);
    let r = lint_spec(source);
    lemma_sort_multiset(all);
    assert forall|k: int| 0 <= k < r.len() implies well_placed(#[trigger] r[k], n) by {
        let x = r[k];
        assert(r.to_multiset().count(x) > 0);
        assert(all.contains(x));
        let j = choose|j: int| 0 <= j < all.len() && all[j] == x;
        assert(well_placed(all[j], n));
    }
}

/// `s` holds a diagnostic of rule `rule` on line `line`.
pub open spec fn reports(s: Seq<DiagnosticView>, rule: Seq<char>, line: nat) -> bool {
    exists|j: int| 0 <= j < s.len() && (#[trigger] s[j]).rule == rule && s[j].line == line
}

proof fn lemma_reports_concat(a: Seq<DiagnosticView>, b: Seq<DiagnosticView>, rule: Seq<char>, line: nat)
    ensures
        reports(a + b, rule, line) == (reports(a, rule, line) || reports(b, rule, line)),
{
    if reports(a + b, rule, line) {
        let j = choose|j: int| 0 <= j < (a + b).len() && (#[trigger] (a + b)[j]).rule == rule && (a + b)[j].line == line;
        if j < a.len() {
            assert(a[j] == (a + b)[j]);
        } else {
            assert(b[j - a.len()] == (a + b)[j]);
        }
    }
    if reports(a, rule, line) {
        let j = choose|j: int| 0 <= j < a.len() && (#[trigger] a[j]).rule == rule && a[j].line == line;
        assert((a + b)[j] == a[j]);
    }
    if reports(b, rule, line) {
        let j = choose|j: int| 0 <= j < b.len() && (#[trigger] b[j]).rule == rule && b[j].line == line;
        assert((a + b)[j + a.len()] == b[j]);
    }
}

/// Number of blank lines directly before line `i`.
pub open spec fn blank_run(ls: Seq<Seq<char>>, i: int) -> nat
    decreases i,
{
    if i <= 0 || i > ls.len() {
        0
    } else if is_blank(ls[i - 1]) {
        blank_run(ls, i - 1) + 1
    } else {
        0
    }
}

/// What the whitespace rule reports for line `k` alone.
pub open spec fn whitespace_line(ls: Seq<Seq<char>>, k: int) -> Seq<DiagnosticView> {
    let line_no = (k + 1) as nat;
    tab_diagnostic(ls[k], line_no) + trailing_diagnostic(ls[k], line_no) + blank_diagnostic(
        ls[k],
        blank_run(ls, k),
        line_no,
    )
}

/// The diagnostics of the whitespace scan from line `i` lie on lines after `i`.
proof fn lemma_whitespace_lines_after(ls: Seq<Seq<char>>, i: int, b: nat, rule: Seq<char>, line: nat)
    requires
        0 <= i,
        line <= i,
    ensures
        !reports(whitespace_from(ls, i, b), rule, line),
    decreases ls.len() - i,
{
    if i < ls.len() {
        let raw = ls[i];
        let line_no = (i + 1) as nat;
        let next = if is_blank(raw) { b + 1 } else { 0 };
        lemma_whitespace_lines_after(ls, i + 1, next, rule, line);
        let a = tab_diagnostic(raw, line_no);
        let t = trailing_diagnostic(raw, line_no);
        let c = blank_diagnostic(raw, b, line_no);
        lemma_reports_concat(a, t, rule, line);
        lemma_reports_concat(a + t, c, rule, line);
        lemma_reports_concat(a + t + c, whitespace_from(ls, i + 1, next), rule, line);
    }
}

/// What the whitespace scan from line `i` reports on line `k` is what line
/// `k` alone gives.
proof fn lemma_whitespace_line(ls: Seq<Seq<char>>, i: int, b: nat, k: int, rule: Seq<char>)
    requires
        0 <= i <= k < ls.len(),
        b == blank_run(ls, i),
    ensures
        reports(whitespace_from(ls, i, b), rule, (k + 1) as nat) == reports(whitespace_line(ls, k), rule, (k + 1) as nat),
    decreases k - i,
{
    let raw = ls[i];
    let line_no = (i + 1) as nat;
    let next = if is_blank(raw) { b + 1 } else { 0 };
    assert(next == blank_run(ls, i + 1));
    let a = tab_diagnostic(raw, line_no);
    let t = trailing_diagnostic(raw, line_no);
    let c = blank_diagnostic(raw, b, line_no);
    let rest = whitespace_from(ls, i + 1, next);
    lemma_reports_concat(a, t, rule, (k + 1) as nat);
    lemma_reports_concat(a + t, c, rule, (k + 1) as nat);
    lemma_reports_concat(a + t + c, rest, rule, (k + 1) as nat);
    if i == k {
        lemma_whitespace_lines_after(ls, i + 1, next, rule, (k + 1) as nat);
    } else {
        lemma_whitespace_line(ls, i + 1, next, k, rule);
    }
}

/// MD014 (whitespace rule): line `k` (0-based) is reported as an extra
/// blank line exactly when it and the line before it are both blank.
pub proof fn law_md014_two_blank_lines(ls: Seq<Seq<char>>, k: int)
    requires
        0 <= k < ls.len(),
    ensures
        reports(whitespace(ls), "MD014"@, (k + 1) as nat) == (k >= 1 && is_blank(ls[k - 1]) && is_blank(ls[k])),
{
    lemma_rule_ids();
    lemma_whitespace_line(ls, 0, 0, k, "MD014"@);
    let line_no = (k + 1) as nat;
    let a = tab_diagnostic(ls[k], line_no);
    let t = trailing_diagnostic(ls[k], line_no);
    let c = blank_diagnostic(ls[k], blank_run(ls, k), line_no);
    lemma_reports_concat(a, t, "MD014"@, line_no);
    lemma_reports_concat(a + t, c, "MD014"@, line_no);
    if reports(c, "MD014"@, line_no) {
        assert(c.len() > 0);
    }
    if k >= 1 && is_blank(ls[k - 1]) && is_blank(ls[k]) {
        assert(c[0].rule == "MD014"@);
    }
}

/// MD013 (whitespace rule): line `k` (0-based) is reported for a tab
/// exactly when it holds a tab.
pub proof fn law_md013_tabs(ls: Seq<Seq<char>>, k: int)
    requires
        0 <= k < ls.len(),
    ensures
        reports(whitespace(ls), "MD013"@, (k + 1) as nat) == ls[k].contains('\t'),
{
    lemma_rule_ids();
    lemma_whitespace_line(ls, 0, 0, k, "MD013"@);
    let line_no = (k + 1) as nat;
    let a = tab_diagnostic(ls[k], line_no);
    let t = trailing_diagnostic(ls[k], line_no);
    let c = blank_diagnostic(ls[k], blank_run(ls, k), line_no);
    lemma_reports_concat(a, t, "MD013"@, line_no);
    lemma_reports_concat(a + t, c, "MD013"@, line_no);
    if ls[k].contains('\t') {
        assert(a[0].rule == "MD013"@);
    }
}

proof fn lemma_trailing_ws_le(s: Seq<char>)
    ensures
        trailing_ws(s) <= s.len(),
    decreases s.len(),
{
    if s.len() > 0 {
        lemma_trailing_ws_le(s.drop_last());
    }
}

/// MD012 (whitespace rule): a line whose trailing whitespace is exactly two
/// spaces after some text (a hard line break) is not reported, and a line
/// with other trailing whitespace is.
pub proof fn law_md012_hard_break(ls: Seq<Seq<char>>, k: int)
    requires
        0 <= k < ls.len(),
    ensures
        reports(whitespace(ls), "MD012"@, (k + 1) as nat) == (trailing_ws(ls[k]) > 0 && !is_hard_break(ls[k])),
{
    lemma_rule_ids();
    lemma_whitespace_line(ls, 0, 0, k, "MD012"@);
    let line_no = (k + 1) as nat;
    let raw = ls[k];
    let a = tab_diagnostic(raw, line_no);
    let t = trailing_diagnostic(raw, line_no);
    let c = blank_diagnostic(raw, blank_run(ls, k), line_no);
    lemma_reports_concat(a, t, "MD012"@, line_no);
    lemma_reports_concat(a + t, c, "MD012"@, line_no);
    lemma_trailing_ws_le(raw);
    if trailing_ws(raw) > 0 && !is_hard_break(raw) {
        assert(t[0].rule == "MD012"@);
    }
}

/// Every thematic break of `ls[i..]` uses the character `c`.
pub open spec fn breaks_use(ls: Seq<Seq<char>>, i: int, c: char) -> bool {
    forall|j: int|
        i <= j < ls.len() && (#[trigger] spec_is_thematic_break(ls[j])) is Some ==> spec_is_thematic_break(ls[j])
            == Some(c)
}

/// All thematic breaks of `ls[i..]` use one character.
pub open spec fn breaks_consistent(ls: Seq<Seq<char>>, i: int) -> bool {
    forall|j: int, m: int|
        i <= j < ls.len() && i <= m < ls.len() && (#[trigger] spec_is_thematic_break(ls[j])) is Some
            && (#[trigger] spec_is_thematic_break(ls[m])) is Some ==> spec_is_thematic_break(ls[j])
            == spec_is_thematic_break(ls[m])
}

proof fn lemma_breaks_after_first(ls: Seq<Seq<char>>, i: int, f: char)
    requires
        0 <= i <= ls.len(),
    ensures
        (breaks_from(ls, i, Some(f)).len() == 0) == breaks_use(ls, i, f),
    decreases ls.len() - i,
{
    if i < ls.len() {
        lemma_breaks_after_first(ls, i + 1, f);
        match spec_is_thematic_break(ls[i]) {
            None => {
                if breaks_use(ls, i + 1, f) {
                    assert(breaks_use(ls, i, f));
                }
            },
            Some(ch) => {
                if ch == f && breaks_use(ls, i + 1, f) {
                    assert(breaks_use(ls, i, f));
                }
            },
        }
    }
}

proof fn lemma_breaks_before_first(ls: Seq<Seq<char>>, i: int)
    requires
        0 <= i <= ls.len(),
    ensures
        (breaks_from(ls, i, None).len() == 0) == breaks_consistent(ls, i),
    decreases ls.len() - i,
{
    if i < ls.len() {
        match spec_is_thematic_break(ls[i]) {
            None => {
                lemma_breaks_before_first(ls, i + 1);
                if breaks_consistent(ls, i + 1) {
                    assert(breaks_consistent(ls, i));
                }
            },
            Some(ch) => {
                lemma_breaks_after_first(ls, i + 1, ch);
                if breaks_use(ls, i + 1, ch) {
                    assert(breaks_consistent(ls, i));
                }
                if breaks_consistent(ls, i) {
                    assert(breaks_use(ls, i + 1, ch));
                }
            },
        }
    }
}

/// MD004: the thematic-break rule reports nothing exactly when every
/// thematic break of the document uses the same character.
pub proof fn law_md004_consistent_breaks(ls: Seq<Seq<char>>)
    ensures
        (breaks(ls).len() == 0) == breaks_consistent(ls, 0),
{
    lemma_breaks_before_first(ls, 0);
}

/// `s` holds a diagnostic of rule `rule`.
pub open spec fn reports_rule(s: Seq<DiagnosticView>, rule: Seq<char>) -> bool {
    exists|j: int| 0 <= j < s.len() && (#[trigger] s[j]).rule == rule
}

proof fn lemma_reports_rule_concat(a: Seq<DiagnosticView>, b: Seq<DiagnosticView>, rule: Seq<char>)
    ensures
        reports_rule(a + b, rule) == (reports_rule(a, rule) || reports_rule(b, rule)),
{
    if reports_rule(a + b, rule) {
        let j = choose|j: int| 0 <= j < (a + b).len() && (#[trigger] (a + b)[j]).rule == rule;
        if j < a.len() {
            assert(a[j] == (a + b)[j]);
        } else {
            assert(b[j - a.len()] == (a + b)[j]);
        }
    }
    if reports_rule(a, rule) {
        let j = choose|j: int| 0 <= j < a.len() && (#[trigger] a[j]).rule == rule;
        assert((a + b)[j] == a[j]);
    }
    if reports_rule(b, rule) {
        let j = choose|j: int| 0 <= j < b.len() && (#[trigger] b[j]).rule == rule;
        assert((a + b)[j + a.len()] == b[j]);
    }
}

/// The unordered list marker of a line, if it is an unordered item.
pub open spec fn marker_of(line: Seq<char>) -> Option<char> {
    spec_unordered_marker(crate::text::trim_start(line))
}

/// Every unordered list marker of `ls[i..]` is `c`.
pub open spec fn markers_use(ls: Seq<Seq<char>>, i: int, c: char) -> bool {
    forall|j: int| i <= j < ls.len() && (#[trigger] marker_of(ls[j])) is Some ==> marker_of(ls[j]) == Some(c)
}

/// All unordered list markers of `ls[i..]` are one character.
pub open spec fn markers_consistent(ls: Seq<Seq<char>>, i: int) -> bool {
    forall|j: int, m: int|
        i <= j < ls.len() && i <= m < ls.len() && (#[trigger] marker_of(ls[j])) is Some && (#[trigger] marker_of(
            ls[m],
        )) is Some ==> marker_of(ls[j]) == marker_of(ls[m])
}

/// The MD008 and MD009 parts of a line report no MD007.
proof fn lemma_other_list_rules(raw: Seq<char>, prev: bool, line_no: nat)
    ensures
        !reports_rule(crate::rules::lists::start_diagnostic(raw, prev, line_no), "MD007"@),
        !reports_rule(crate::rules::lists::task_diagnostic(raw, line_no), "MD007"@),
{
    lemma_rule_ids();
}

proof fn lemma_markers_after_first(ls: Seq<Seq<char>>, i: int, f: char, prev: bool)
    requires
        0 <= i <= ls.len(),
    ensures
        !reports_rule(lists_from(ls, i, Some(f), prev), "MD007"@) == markers_use(ls, i, f),
    decreases ls.len() - i,
{
    lemma_rule_ids();
    if i < ls.len() {
        let raw = ls[i];
        let line_no = (i + 1) as nat;
        let np = crate::rules::lists::next_prev(raw, prev);
        lemma_markers_after_first(ls, i + 1, f, np);
        let a = crate::rules::lists::marker_diagnostic(raw, Some(f), line_no);
        let b = crate::rules::lists::start_diagnostic(raw, prev, line_no);
        let c = crate::rules::lists::task_diagnostic(raw, line_no);
        lemma_other_list_rules(raw, prev, line_no);
        lemma_reports_rule_concat(a, b, "MD007"@);
        lemma_reports_rule_concat(a + b, c, "MD007"@);
        lemma_reports_rule_concat(a + b + c, lists_from(ls, i + 1, Some(f), np), "MD007"@);
        match marker_of(raw) {
            Some(m) => {
                if m != f {
                    assert(a[0].rule == "MD007"@);
                } else if markers_use(ls, i + 1, f) {
                    assert(markers_use(ls, i, f));
                }
            },
            None => {
                if markers_use(ls, i + 1, f) {
                    assert(markers_use(ls, i, f));
                }
            },
        }
    }
}

proof fn lemma_markers_before_first(ls: Seq<Seq<char>>, i: int, prev: bool)
    requires
        0 <= i <= ls.len(),
    ensures
        !reports_rule(lists_from(ls, i, None, prev), "MD007"@) == markers_consistent(ls, i),
    decreases ls.len() - i,
{
    lemma_rule_ids();
    if i < ls.len() {
        let raw = ls[i];
        let line_no = (i + 1) as nat;
        let np = crate::rules::lists::next_prev(raw, prev);
        let a = crate::rules::lists::marker_diagnostic(raw, None, line_no);
        let b = crate::rules::lists::start_diagnostic(raw, prev, line_no);
        let c = crate::rules::lists::task_diagnostic(raw, line_no);
        lemma_other_list_rules(raw, prev, line_no);
        lemma_reports_rule_concat(a, b, "MD007"@);
        lemma_reports_rule_concat(a + b, c, "MD007"@);
        match marker_of(raw) {
            Some(m) => {
                lemma_markers_after_first(ls, i + 1, m, np);
                lemma_reports_rule_concat(a + b + c, lists_from(ls, i + 1, Some(m), np), "MD007"@);
                if markers_use(ls, i + 1, m) {
                    assert(markers_consistent(ls, i));
                }
                if markers_consistent(ls, i) {
                    assert(markers_use(ls, i + 1, m));
                }
            },
            None => {
                lemma_markers_before_first(ls, i + 1, np);
                lemma_reports_rule_concat(a + b + c, lists_from(ls, i + 1, None, np), "MD007"@);
                if markers_consistent(ls, i + 1) {
                    assert(markers_consistent(ls, i));
                }
            },
        }
    }
}

/// MD007: the list rule reports no inconsistent marker exactly when every
/// unordered list item of the document uses the same marker.
pub proof fn law_md007_consistent_markers(ls: Seq<Seq<char>>)
    ensures
        !reports_rule(lists(ls), "MD007"@) == markers_consistent(ls, 0),
{
    lemma_markers_before_first(ls, 0, false);
}

/// Every diagnostic of `s` is on line `line`.
pub open spec fn all_on_line(s: Seq<DiagnosticView>, line: nat) -> bool {
    forall|j: int| 0 <= j < s.len() ==> (#[trigger] s[j]).line == line
}

proof fn lemma_on_line_concat(a: Seq<DiagnosticView>, b: Seq<DiagnosticView>, line: nat)
    requires
        all_on_line(a, line),
        all_on_line(b, line),
    ensures
        all_on_line(a + b, line),
{
    assert forall|j: int| 0 <= j < (a + b).len() implies (#[trigger] (a + b)[j]).line == line by {
        if j < a.len() {
            assert((a + b)[j] == a[j]);
        } else {
            assert((a + b)[j] == b[j - a.len()]);
        }
    }
}

proof fn lemma_images_on_line(l: Seq<char>, pos: int, line_no: nat)
    requires
        0 <= pos,
    ensures
        all_on_line(images_from(l, pos, line_no), line_no),
    decreases l.len() - pos,
{
    if pos < l.len() {
        if pos + 1 < l.len() && l[pos] == '!' && l[pos + 1] == '[' && close_bracket(l, pos + 2) is Some {
            let close = close_bracket(l, pos + 2).unwrap();
            lemma_close_bracket_range(l, pos + 2, 0);
            lemma_images_on_line(l, close + 1, line_no);
            lemma_on_line_concat(
                crate::rules::links::empty_alt_diagnostic(l, pos, close, line_no),
                images_from(l, close + 1, line_no),
                line_no,
            );
        } else {
            lemma_images_on_line(l, pos + 1, line_no);
        }
    }
}

proof fn lemma_references_on_line(l: Seq<char>, pos: int, defs: Seq<Seq<char>>, line_no: nat)
    requires
        0 <= pos,
    ensures
        all_on_line(references_from(l, pos, defs, line_no), line_no),
    decreases l.len() - pos,
{
    if pos < l.len() {
        if l[pos] == '[' && close_bracket(l, pos + 1) is Some {
            let text_end = close_bracket(l, pos + 1).unwrap();
            lemma_close_bracket_range(l, pos + 1, 0);
            let text = l.subrange(pos + 1, text_end);
            let after = l.skip(text_end + 1);
            if crate::text::starts_with(after, '[') && close_bracket(l, text_end + 2) is Some {
                let ref_end = close_bracket(l, text_end + 2).unwrap();
                lemma_close_bracket_range(l, text_end + 2, 0);
                let label_raw = l.subrange(text_end + 2, ref_end);
                let label = if crate::text::trim(label_raw).len() == 0 { text } else { label_raw };
                lemma_references_on_line(l, ref_end + 1, defs, line_no);
                lemma_on_line_concat(
                    crate::rules::links::full_reference_diagnostic(l, pos, label, defs, line_no),
                    references_from(l, ref_end + 1, defs, line_no),
                    line_no,
                );
            } else {
                lemma_references_on_line(l, text_end + 1, defs, line_no);
                lemma_on_line_concat(
                    crate::rules::links::shortcut_reference_diagnostic(l, pos, text, after, defs, line_no),
                    references_from(l, text_end + 1, defs, line_no),
                    line_no,
                );
            }
        } else {
            lemma_references_on_line(l, pos + 1, defs, line_no);
        }
    }
}

/// The fenced block open before line `i`, as the link rule tracks it:
/// its fence character and length.
pub open spec fn link_fence_before(ls: Seq<Seq<char>>, i: int) -> Option<(char, nat)>
    decreases i,
{
    if i <= 0 || i > ls.len() {
        None
    } else {
        let t = crate::text::trim_start(ls[i - 1]);
        match link_fence_before(ls, i - 1) {
            None => spec_fence_open(t),
            Some((ch, len)) => if spec_fence_close(t, ch, len) {
                None
            } else {
                Some((ch, len))
            },
        }
    }
}

/// A line the link rule examines: not inside a fenced block, and not
/// opening one.
pub open spec fn link_examined(ls: Seq<Seq<char>>, k: int) -> bool {
    link_fence_before(ls, k) is None && spec_fence_open(crate::text::trim_start(ls[k])) is None
}

proof fn lemma_links_lines_after(
    ls: Seq<Seq<char>>,
    i: int,
    fence: Option<(char, nat)>,
    defs: Seq<Seq<char>>,
    rule: Seq<char>,
    line: nat,
)
    requires
        0 <= i,
        line <= i,
    ensures
        !reports(links_from(ls, i, fence, defs), rule, line),
    decreases ls.len() - i,
{
    if i < ls.len() {
        let t = crate::text::trim_start(ls[i]);
        match fence {
            None => match spec_fence_open(t) {
                Some(f) => lemma_links_lines_after(ls, i + 1, Some(f), defs, rule, line),
                None => {
                    let line_no = (i + 1) as nat;
                    let a = images_from(ls[i], 0, line_no);
                    let b = references_from(ls[i], 0, defs, line_no);
                    lemma_images_on_line(ls[i], 0, line_no);
                    lemma_references_on_line(ls[i], 0, defs, line_no);
                    lemma_links_lines_after(ls, i + 1, None, defs, rule, line);
                    lemma_reports_concat(a, b, rule, line);
                    lemma_reports_concat(a + b, links_from(ls, i + 1, None, defs), rule, line);
                },
            },
            Some((ch, len)) => {
                lemma_links_lines_after(ls, i + 1, None, defs, rule, line);
                lemma_links_lines_after(ls, i + 1, fence, defs, rule, line);
            },
        }
    }
}

proof fn lemma_links_line(ls: Seq<Seq<char>>, i: int, defs: Seq<Seq<char>>, k: int, rule: Seq<char>)
    requires
        0 <= i <= k < ls.len(),
    ensures
        reports(links_from(ls, i, link_fence_before(ls, i), defs), rule, (k + 1) as nat) == (link_examined(ls, k)
            && reports(
            images_from(ls[k], 0, (k + 1) as nat) + references_from(ls[k], 0, defs, (k + 1) as nat),
            rule,
            (k + 1) as nat,
        )),
    decreases k - i,
{
    let fence = link_fence_before(ls, i);
    let t = crate::text::trim_start(ls[i]);
    let line = (k + 1) as nat;
    assert(link_fence_before(ls, i + 1) == match fence {
        None => spec_fence_open(t),
        Some((ch, len)) => if spec_fence_close(t, ch, len) {
            None
        } else {
            Some((ch, len))
        },
    });
    let line_no = (i + 1) as nat;
    let a = images_from(ls[i], 0, line_no);
    let b = references_from(ls[i], 0, defs, line_no);
    lemma_images_on_line(ls[i], 0, line_no);
    lemma_references_on_line(ls[i], 0, defs, line_no);
    lemma_on_line_concat(a, b, line_no);
    lemma_reports_concat(a + b, links_from(ls, i + 1, None, defs), rule, line);
    if i == k {
        match fence {
            None => match spec_fence_open(t) {
                Some(f) => lemma_links_lines_after(ls, i + 1, Some(f), defs, rule, line),
                None => lemma_links_lines_after(ls, i + 1, None, defs, rule, line),
            },
            Some((ch, len)) => {
                lemma_links_lines_after(ls, i + 1, None, defs, rule, line);
                lemma_links_lines_after(ls, i + 1, fence, defs, rule, line);
            },
        }
    } else {
        lemma_links_line(ls, i + 1, defs, k, rule);
        if reports(a + b, rule, line) {
            let j = choose|j: int| 0 <= j < (a + b).len() && (#[trigger] (a + b)[j]).rule == rule && (a + b)[j].line
                == line;
            assert((a + b)[j].line == line_no);
        }
    }
}

/// The link rule (MD015, MD016) reports nothing on a line that opens a
/// fenced code block or lies inside one (up to and including its closing
/// fence); on every other line it reports what the line's images and
/// references give.
pub proof fn law_links_skip_fenced_code(ls: Seq<Seq<char>>, k: int, rule: Seq<char>)
    requires
        0 <= k < ls.len(),
    ensures
        reports(links(ls), rule, (k + 1) as nat) == (link_examined(ls, k) && reports(
            images_from(ls[k], 0, (k + 1) as nat) + references_from(
                ls[k],
                0,
                crate::rules::links::definitions(ls),
                (k + 1) as nat,
            ),
            rule,
            (k + 1) as nat,
        )),
{
    lemma_links_line(ls, 0, crate::rules::links::definitions(ls), k, rule);
}

/// The label by which the reference link that begins with the `[` at
/// position `p` of `l` is looked up: the second bracket's text of a full
/// reference `[text][label]` (the first's where the second is blank), the
/// bracket's text otherwise.
pub open spec fn reference_label(l: Seq<char>, p: int) -> Seq<char> {
    let text_end = close_bracket(l, p + 1).unwrap();
    let text = l.subrange(p + 1, text_end);
    let after = l.skip(text_end + 1);
    if crate::text::starts_with(after, '[') && close_bracket(l, text_end + 2) is Some {
        let label_raw = l.subrange(text_end + 2, close_bracket(l, text_end + 2).unwrap());
        if trim(label_raw).len() == 0 { text } else { label_raw }
    } else {
        text
    }
}

/// `d` is an MD016 error on line `line_no` whose column points at a `[` of
/// the line `l` after position `pos`, which opens a reference whose label
/// has no definition among `defs`.
pub open spec fn unresolved_reference(
    d: DiagnosticView,
    l: Seq<char>,
    pos: int,
    defs: Seq<Seq<char>>,
    line_no: nat,
) -> bool {
    &&& d.rule == "MD016"@
    &&& d.severity == Severity::Error
    &&& d.line == line_no
    &&& pos < d.col <= l.len()
    &&& l[d.col - 1] == '['
    &&& close_bracket(l, d.col as int) is Some
    &&& !defs.contains(crate::rules::links::normalise(reference_label(l, d.col - 1)))
}

/// Every diagnostic that the reference scan of line `l` (line number
/// `line_no`) reports from position `pos` on is an MD016 error on that line,
/// at the column of a `[` of the line at or after `pos` that opens a
/// reference whose label has no definition.
pub proof fn law_references_point_at_brackets(l: Seq<char>, pos: int, defs: Seq<Seq<char>>, line_no: nat)
    requires
        0 <= pos,
    ensures
        forall|k: int|
            0 <= k < references_from(l, pos, defs, line_no).len() ==> unresolved_reference(
                #[trigger] references_from(l, pos, defs, line_no)[k],
                l,
                pos,
                defs,
                line_no,
            ),
    decreases l.len() - pos,
{
    if pos < l.len() {
        if l[pos] == '[' && close_bracket(l, pos + 1) is Some {
            let text_end = close_bracket(l, pos + 1).unwrap();
            lemma_close_bracket_range(l, pos + 1, 0);
            let text = l.subrange(pos + 1, text_end);
            let after = l.skip(text_end + 1);
            let (head, next) = if crate::text::starts_with(after, '[') && close_bracket(l, text_end + 2) is Some {
                let ref_end = close_bracket(l, text_end + 2).unwrap();
                lemma_close_bracket_range(l, text_end + 2, 0);
                let label_raw = l.subrange(text_end + 2, ref_end);
                let label = if crate::text::trim(label_raw).len() == 0 { text } else { label_raw };
                (crate::rules::links::full_reference_diagnostic(l, pos, label, defs, line_no), ref_end + 1)
            } else {
                (crate::rules::links::shortcut_reference_diagnostic(l, pos, text, after, defs, line_no), text_end + 1)
            };
            law_references_point_at_brackets(l, next, defs, line_no);
            let tail = references_from(l, next, defs, line_no);
            let r = references_from(l, pos, defs, line_no);
            assert(r == head + tail);
            assert forall|k: int| 0 <= k < r.len() implies unresolved_reference(#[trigger] r[k], l, pos, defs, line_no) by {
                if k < head.len() {
                    assert(r[k] == head[k]);
                } else {
                    assert(r[k] == tail[k - head.len()]);
                    assert(unresolved_reference(tail[k - head.len()], l, next, defs, line_no));
                }
            }
        } else {
            law_references_point_at_brackets(l, pos + 1, defs, line_no);
            let r = references_from(l, pos, defs, line_no);
            assert(r == references_from(l, pos + 1, defs, line_no));
            assert forall|k: int| 0 <= k < r.len() implies unresolved_reference(#[trigger] r[k], l, pos, defs, line_no) by {
                assert(unresolved_reference(r[k], l, pos + 1, defs, line_no));
            }
        }
    }
}

/// The closing sequence of an ATX heading: of a trimmed heading text with
/// `k` trailing `#`s, `strip_atx_closing` keeps the text when there are
/// none, or when text remains before them that does not end in a space or
/// a tab; otherwise it gives the text before them, trimmed at its end.
pub proof fn law_strip_atx_closing(content: Seq<char>)
    requires
        trim(content) == content,
    ensures
        ({
            let n = content.len();
            let k = trailing_eq(content, '#');
            let before = content.take(n - k);
            spec_strip_atx_closing(content) == if k == 0 || (k < n && !ends_with(before, ' ') && !ends_with(
                before,
                '\t',
            )) {
                content
            } else {
                trim_end(before)
            }
        }),
{
    lemma_trim_end_idempotent(trim_start(content));
    assert(trim_end(content) == content);
    lemma_trailing_eq_le(content, '#');
    let n = content.len();
    let k = trailing_eq(content, '#');
    if k == n {
        let e = content.take(0);
        assert(e =~= Seq::<char>::empty());
        assert(trim_end(e) =~= Seq::<char>::empty());
    }
}

/// An opening fence is a fence line; a fence line that opens no block is a
/// backtick fence whose info string holds a backtick.
pub proof fn law_fence_candidates(line: Seq<char>)
    ensures
        spec_opening_fence(line) matches Some(f) ==> fence_candidate(line) == Some(f),
        fence_candidate(line) matches Some(f) ==> (spec_opening_fence(line) is None <==> (f.ch == '`' && trim(
            line.skip(f.indent as int).skip(f.len as int),
        ).contains('`'))),
{
}

/// What makes a line a thematic break of `c` (one of `*`, `-`, `_`): at
/// most three spaces of indentation, and a trimmed text of three or more
/// `c` with only spaces and tabs besides (so `* * *` is a `*` break).
pub proof fn law_thematic_break_shape(line: Seq<char>, c: char)
    requires
        c == '*' || c == '-' || c == '_',
    ensures
        spec_is_thematic_break(line) == Some(c) <==> ({
            let t = trim(line);
            &&& crate::text::leading_eq(line, ' ') <= 3
            &&& forall|j: int| 0 <= j < t.len() ==> (#[trigger] t[j] == c || t[j] == ' ' || t[j] == '\t')
            &&& crate::text::count_eq(t, c) >= 3
        }),
{
    let t = trim(line);
    let ts = trim_start(line);
    crate::text::lemma_leading_ws_facts(line);
    crate::text::lemma_trailing_ws_facts(ts);
    if t.len() > 0 {
        assert(t[0] == ts[0]);
        assert(ts[0] == line[crate::text::leading_ws(line) as int]);
        assert(crate::text::is_ws(' ') && crate::text::is_ws('\t'));
    }
    if t.len() == 0 {
        assert(crate::text::count_eq(t, c) == 0);
    }
}

/// Line `j` of `ls` is a link reference definition whose normalised label
/// is `key`.
pub open spec fn defines(ls: Seq<Seq<char>>, j: int, key: Seq<char>) -> bool {
    &&& 0 <= j < ls.len()
    &&& crate::rules::links::definition_label(ls[j]) is Some
    &&& crate::rules::links::normalise(crate::rules::links::definition_label(ls[j]).unwrap()) == key
}

proof fn lemma_definitions_from(ls: Seq<Seq<char>>, i: int, key: Seq<char>)
    requires
        0 <= i <= ls.len(),
    ensures
        crate::rules::links::definitions_from(ls, i).contains(key) <==> exists|j: int| i <= j && #[trigger] defines(
            ls,
            j,
            key,
        ),
    decreases ls.len() - i,
{
    if i < ls.len() {
        lemma_definitions_from(ls, i + 1, key);
        let rest = crate::rules::links::definitions_from(ls, i + 1);
        match crate::rules::links::definition_label(ls[i]) {
            Some(label) => {
                let all = seq![crate::rules::links::normalise(label)] + rest;
                if all.contains(key) {
                    let k = choose|k: int| 0 <= k < all.len() && all[k] == key;
                    if k == 0 {
                        assert(defines(ls, i, key));
                    } else {
                        assert(rest[k - 1] == key);
                        assert(rest.contains(key));
                    }
                }
                if exists|j: int| i <= j && #[trigger] defines(ls, j, key) {
                    let j = choose|j: int| i <= j && #[trigger] defines(ls, j, key);
                    if j == i {
                        assert(all[0] == key);
                    } else {
                        assert(exists|j2: int| i + 1 <= j2 && #[trigger] defines(ls, j2, key));
                        let k = choose|k: int| 0 <= k < rest.len() && rest[k] == key;
                        assert(all[k + 1] == key);
                    }
                }
            },
            None => {
                if exists|j: int| i <= j && #[trigger] defines(ls, j, key) {
                    let j = choose|j: int| i <= j && #[trigger] defines(ls, j, key);
                    assert(j != i);
                    assert(exists|j2: int| i + 1 <= j2 && #[trigger] defines(ls, j2, key));
                }
            },
        }
    }
}

/// The definitions that references are resolved against are the
/// normalised labels of every link reference definition line of the
/// document, and nothing else.
pub proof fn law_definitions_collected(ls: Seq<Seq<char>>, key: Seq<char>)
    ensures
        crate::rules::links::definitions(ls).contains(key) <==> exists|j: int| #[trigger] defines(ls, j, key),
{
    lemma_definitions_from(ls, 0, key);
}

/// A reference whose normalised label is that of some definition line of the
/// document is never reported: every MD016 diagnostic of a line points at a
/// reference whose label no definition line defines.
pub proof fn law_defined_references_not_reported(ls: Seq<Seq<char>>, k: int)
    requires
        0 <= k < ls.len(),
    ensures
        forall|m: int|
            0 <= m < references_from(ls[k], 0, crate::rules::links::definitions(ls), (k + 1) as nat).len() ==> {
                let d = #[trigger] references_from(ls[k], 0, crate::rules::links::definitions(ls), (k + 1) as nat)[m];
                &&& d.rule == "MD016"@
                &&& ls[k][d.col - 1] == '['
                &&& forall|j: int|
                    !#[trigger] defines(ls, j, crate::rules::links::normalise(reference_label(ls[k], d.col - 1)))
            },
{
    let defs = crate::rules::links::definitions(ls);
    let r = references_from(ls[k], 0, defs, (k + 1) as nat);
    law_references_point_at_brackets(ls[k], 0, defs, (k + 1) as nat);
    assert forall|m: int| 0 <= m < r.len() implies {
        let d = #[trigger] r[m];
        &&& d.rule == "MD016"@
        &&& ls[k][d.col - 1] == '['
        &&& forall|j: int| !#[trigger] defines(ls, j, crate::rules::links::normalise(reference_label(ls[k], d.col - 1)))
    } by {
        let d = r[m];
        assert(unresolved_reference(d, ls[k], 0, defs, (k + 1) as nat));
        let key = crate::rules::links::normalise(reference_label(ls[k], d.col - 1));
        law_definitions_collected(ls, key);
    }
}

/// A line of only whitespace has nothing left once trimmed at either end.
proof fn lemma_blank_trim_end(x: Seq<char>)
    requires
        trim_start(x).len() == 0,
    ensures
        trim_end(x).len() == 0,
{
    crate::text::lemma_leading_ws_facts(x);
    assert(crate::text::leading_ws(x) == x.len());
    crate::text::lemma_trailing_ws(x, 0);
}

/// The heading scan from line `i` reports nothing on lines up to `i`.
proof fn lemma_headings_lines_after(ls: Seq<Seq<char>>, i: int, rule: Seq<char>, line: nat)
    requires
        0 <= i,
        line <= i,
    ensures
        !reports(headings_from(ls, i), rule, line),
    decreases ls.len() - i,
{
    if i < ls.len() {
        let raw = ls[i];
        let trimmed = trim_start(raw);
        if crate::text::starts_with(trimmed, '#') {
            lemma_headings_lines_after(ls, i + 1, rule, line);
            lemma_reports_concat(
                crate::opt_seq(crate::rules::headings::atx_diagnostic(raw, (i + 1) as nat)),
                headings_from(ls, i + 1),
                rule,
                line,
            );
        } else if i + 1 < ls.len() && crate::rules::headings::spec_is_setext_underline(trim_end(ls[i + 1]))
            && trimmed.len() > 0 {
            lemma_headings_lines_after(ls, i + 2, rule, line);
            lemma_reports_concat(
                crate::rules::headings::setext_diagnostic(raw, trim_end(ls[i + 1]), (i + 2) as nat),
                headings_from(ls, i + 2),
                rule,
                line,
            );
        } else {
            lemma_headings_lines_after(ls, i + 1, rule, line);
        }
    }
}

/// The heading scan reaches line `k` when the line before it is blank:
/// what it reports on line `k + 2` is what the scan from `k` reports there.
proof fn lemma_headings_reach(ls: Seq<Seq<char>>, i: int, k: int, rule: Seq<char>)
    requires
        0 <= i <= k < ls.len(),
        i == k || trim_start(ls[k - 1]).len() == 0,
    ensures
        reports(headings_from(ls, i), rule, (k + 2) as nat) == reports(headings_from(ls, k), rule, (k + 2) as nat),
    decreases k - i,
{
    if i < k {
        let raw = ls[i];
        let trimmed = trim_start(raw);
        let line = (k + 2) as nat;
        if crate::text::starts_with(trimmed, '#') {
            lemma_headings_reach(ls, i + 1, k, rule);
            lemma_reports_concat(
                crate::opt_seq(crate::rules::headings::atx_diagnostic(raw, (i + 1) as nat)),
                headings_from(ls, i + 1),
                rule,
                line,
            );
        } else if i + 1 < ls.len() && crate::rules::headings::spec_is_setext_underline(trim_end(ls[i + 1]))
            && trimmed.len() > 0 {
            assert(i + 1 != k);
            if i + 1 == k - 1 {
                lemma_blank_trim_end(ls[k - 1]);
            }
            lemma_headings_reach(ls, i + 2, k, rule);
            lemma_reports_concat(
                crate::rules::headings::setext_diagnostic(raw, trim_end(ls[i + 1]), (i + 2) as nat),
                headings_from(ls, i + 2),
                rule,
                line,
            );
        } else {
            lemma_headings_reach(ls, i + 1, k, rule);
        }
    }
}

/// MD003: a setext heading (a non-blank line that does not open with `#`,
/// at the start of the document or after a blank line, followed by a line
/// that is one or more `=` or one or more `-` before its trailing
/// whitespace) is reported on its underline's line exactly when the
/// underline has fewer characters than the trimmed heading text.
pub proof fn law_setext_underline_length(ls: Seq<Seq<char>>, k: int)
    requires
        0 <= k,
        k + 1 < ls.len(),
        k == 0 || trim_start(ls[k - 1]).len() == 0,
        trim_start(ls[k]).len() > 0,
        !crate::text::starts_with(trim_start(ls[k]), '#'),
        trim_end(ls[k + 1]).len() > 0,
        (forall|j: int| 0 <= j < trim_end(ls[k + 1]).len() ==> #[trigger] trim_end(ls[k + 1])[j] == '=') || (
        forall|j: int| 0 <= j < trim_end(ls[k + 1]).len() ==> #[trigger] trim_end(ls[k + 1])[j] == '-'),
    ensures
        reports(headings(ls), "MD003"@, (k + 2) as nat) <==> trim_end(ls[k + 1]).len() < trim(ls[k]).len(),
{
    let u = trim_end(ls[k + 1]);
    let line = (k + 2) as nat;
    lemma_headings_reach(ls, 0, k, "MD003"@);
    lemma_headings_lines_after(ls, k + 2, "MD003"@, line);
    let d = crate::rules::headings::setext_diagnostic(ls[k], u, line);
    lemma_reports_concat(d, headings_from(ls, k + 2), "MD003"@, line);
    assert(!crate::text::is_ws(u[0]));
    crate::text::lemma_leading_ws(u, 0);
    assert(!crate::text::is_ws(u[u.len() - 1]));
    crate::text::lemma_trailing_ws(u, u.len() as int);
    assert(trim_start(u) =~= u);
    assert(trim(u) =~= u);
    if d.len() > 0 {
        assert(d[0].rule == "MD003"@ && d[0].line == line);
    }
}

/// The table scan from line `i` reports nothing on lines up to `i`.
proof fn lemma_tables_lines_after(ls: Seq<Seq<char>>, i: int, st: TableScan, rule: Seq<char>, line: nat)
    requires
        0 <= i,
        line <= i,
    ensures
        !reports(tables_from(ls, i, st), rule, line),
    decreases ls.len() - i, if st is Body { 1int } else { 0int },
{
    if i < ls.len() {
        match st {
            TableScan::Fence { ch, len } => {
                lemma_tables_lines_after(ls, i + 1, TableScan::Text, rule, line);
                lemma_tables_lines_after(ls, i + 1, st, rule, line);
            },
            TableScan::Body { header_cols } => if crate::rules::tables::spec_looks_like_table_row(ls[i]) {
                lemma_tables_lines_after(ls, i + 1, st, rule, line);
                lemma_reports_concat(
                    crate::rules::tables::row_count_diagnostic(
                        crate::rules::tables::spec_col_count(ls[i]),
                        header_cols,
                        (i + 1) as nat,
                    ),
                    tables_from(ls, i + 1, st),
                    rule,
                    line,
                );
            } else {
                lemma_tables_lines_after(ls, i, TableScan::Text, rule, line);
            },
            TableScan::Text => match spec_fence_open(trim_start(ls[i])) {
                Some((ch, len)) => lemma_tables_lines_after(ls, i + 1, TableScan::Fence { ch, len }, rule, line),
                None => if crate::rules::tables::spec_looks_like_table_row(ls[i]) && i + 1 < ls.len() {
                    if crate::rules::tables::spec_is_separator_row(ls[i + 1]) {
                        let header_cols = crate::rules::tables::spec_col_count(ls[i]);
                        lemma_tables_lines_after(ls, i + 2, TableScan::Body { header_cols }, rule, line);
                        lemma_reports_concat(
                            crate::rules::tables::separator_count_diagnostic(
                                crate::rules::tables::spec_col_count(ls[i + 1]),
                                header_cols,
                                (i + 2) as nat,
                            ),
                            tables_from(ls, i + 2, TableScan::Body { header_cols }),
                            rule,
                            line,
                        );
                    } else {
                        lemma_tables_lines_after(ls, i + 1, TableScan::Text, rule, line);
                        lemma_reports_concat(
                            seq![crate::rules::tables::missing_separator_diagnostic((i + 1) as nat)],
                            tables_from(ls, i + 1, TableScan::Text),
                            rule,
                            line,
                        );
                    }
                } else {
                    lemma_tables_lines_after(ls, i + 1, TableScan::Text, rule, line);
                },
            },
        }
    }
}

/// In a table body whose rows run from line `i` through line `k`, MD011 is
/// reported on line `k + 1` exactly when row `k` has another cell count
/// than the header.
proof fn lemma_table_body_row(ls: Seq<Seq<char>>, i: int, k: int, header_cols: nat)
    requires
        0 <= i <= k < ls.len(),
        forall|j: int| i <= j <= k ==> trim(#[trigger] ls[j]).contains('|'),
    ensures
        reports(tables_from(ls, i, TableScan::Body { header_cols }), "MD011"@, (k + 1) as nat)
            <==> crate::rules::tables::spec_col_count(ls[k]) != header_cols,
    decreases k - i,
{
    let st = TableScan::Body { header_cols };
    let line = (k + 1) as nat;
    assert(trim(ls[i]).contains('|'));
    let d = crate::rules::tables::row_count_diagnostic(crate::rules::tables::spec_col_count(ls[i]), header_cols, (i + 1) as nat);
    lemma_reports_concat(d, tables_from(ls, i + 1, st), "MD011"@, line);
    if i < k {
        lemma_table_body_row(ls, i + 1, k, header_cols);
    } else {
        lemma_tables_lines_after(ls, i + 1, st, "MD011"@, line);
        if d.len() > 0 {
            assert(d[0].rule == "MD011"@ && d[0].line == line);
        }
    }
}

/// No line of `ls[i..h]` opens a code fence: none begins, after its
/// indentation, with a backtick or a tilde.
pub open spec fn no_fence_marks(ls: Seq<Seq<char>>, i: int, h: int) -> bool {
    forall|j: int|
        i <= j < h ==> !crate::text::starts_with(trim_start(#[trigger] ls[j]), '`') && !crate::text::starts_with(
            trim_start(ls[j]),
            '~',
        )
}

/// Line `h` starts a fresh block for the table scanner: it is the first
/// line, or the line before it holds no `|`; and no line before it opens a
/// code fence.
pub open spec fn table_may_start(ls: Seq<Seq<char>>, h: int) -> bool {
    &&& 0 <= h < ls.len()
    &&& h == 0 || !trim(ls[h - 1]).contains('|')
    &&& no_fence_marks(ls, 0, h)
}

/// The table scan reaches line `h` outside any table or fence: what it
/// reports on a line after `h` is what the scan from `h` reports there.
proof fn lemma_tables_reach(ls: Seq<Seq<char>>, i: int, st: TableScan, h: int, rule: Seq<char>, line: nat)
    requires
        0 <= i <= h < ls.len(),
        st !is Fence,
        h == 0 || !trim(ls[h - 1]).contains('|'),
        no_fence_marks(ls, i, h),
        line > h,
        i == h ==> st is Text,
    ensures
        reports(tables_from(ls, i, st), rule, line) == reports(tables_from(ls, h, TableScan::Text), rule, line),
    decreases h - i, if st is Body { 1int } else { 0int },
{
    if i < h {
        match st {
            TableScan::Fence { ch, len } => {},
            TableScan::Body { header_cols } => if crate::rules::tables::spec_looks_like_table_row(ls[i]) {
                assert(i != h - 1);
                lemma_tables_reach(ls, i + 1, st, h, rule, line);
                lemma_reports_concat(
                    crate::rules::tables::row_count_diagnostic(
                        crate::rules::tables::spec_col_count(ls[i]),
                        header_cols,
                        (i + 1) as nat,
                    ),
                    tables_from(ls, i + 1, st),
                    rule,
                    line,
                );
            } else {
                lemma_tables_reach(ls, i, TableScan::Text, h, rule, line);
            },
            TableScan::Text => {
                assert(!crate::text::starts_with(trim_start(ls[i]), '`'));
                assert(!crate::text::starts_with(trim_start(ls[i]), '~'));
                assert(spec_fence_open(trim_start(ls[i])) is None);
                if crate::rules::tables::spec_looks_like_table_row(ls[i]) && i + 1 < ls.len() {
                    assert(i != h - 1);
                    if crate::rules::tables::spec_is_separator_row(ls[i + 1]) {
                        let header_cols = crate::rules::tables::spec_col_count(ls[i]);
                        if i + 1 == h - 1 {
                            assert(trim(ls[h - 1]).contains('|'));
                        }
                        lemma_tables_reach(ls, i + 2, TableScan::Body { header_cols }, h, rule, line);
                        lemma_reports_concat(
                            crate::rules::tables::separator_count_diagnostic(
                                crate::rules::tables::spec_col_count(ls[i + 1]),
                                header_cols,
                                (i + 2) as nat,
                            ),
                            tables_from(ls, i + 2, TableScan::Body { header_cols }),
                            rule,
                            line,
                        );
                    } else {
                        lemma_tables_reach(ls, i + 1, TableScan::Text, h, rule, line);
                        lemma_reports_concat(
                            seq![crate::rules::tables::missing_separator_diagnostic((i + 1) as nat)],
                            tables_from(ls, i + 1, TableScan::Text),
                            rule,
                            line,
                        );
                    }
                } else {
                    lemma_tables_reach(ls, i + 1, TableScan::Text, h, rule, line);
                }
            },
        }
    }
}

/// MD011: in a table whose header row (holding a `|`) is line `h + 1`
/// where a table may start, and whose separator row follows, a body row on
/// line `k + 1` (every line from the separator's successor up to it holding
/// a `|`) is reported exactly when its pipe-delimited cell count differs
/// from the header's, whether it has more cells or fewer.
pub proof fn law_table_row_cell_count(ls: Seq<Seq<char>>, h: int, k: int)
    requires
        table_may_start(ls, h),
        h + 2 <= k < ls.len(),
        trim(ls[h]).contains('|'),
        !crate::text::starts_with(trim_start(ls[h]), '`'),
        !crate::text::starts_with(trim_start(ls[h]), '~'),
        crate::rules::tables::spec_is_separator_row(ls[h + 1]),
        forall|j: int| h + 2 <= j <= k ==> trim(#[trigger] ls[j]).contains('|'),
    ensures
        reports(tables(ls), "MD011"@, (k + 1) as nat) <==> crate::rules::tables::spec_col_count(ls[k])
            != crate::rules::tables::spec_col_count(ls[h]),
{
    lemma_rule_ids();
    let hc = crate::rules::tables::spec_col_count(ls[h]);
    let line = (k + 1) as nat;
    lemma_tables_reach(ls, 0, TableScan::Text, h, "MD011"@, line);
    assert(trim(ls[h]).len() > 0);
    let sep = crate::rules::tables::separator_count_diagnostic(
        crate::rules::tables::spec_col_count(ls[h + 1]),
        hc,
        (h + 2) as nat,
    );
    lemma_reports_concat(sep, tables_from(ls, h + 2, TableScan::Body { header_cols: hc }), "MD011"@, line);
    lemma_table_body_row(ls, h + 2, k, hc);
    if sep.len() > 0 {
        assert(sep[0].rule == "MD010"@);
        assert(!reports(sep, "MD011"@, line));
    }
}

/// MD010: a table header row (holding a `|`, on line `h + 1` where a table
/// may start, with a line after it) is reported on its own line exactly
/// when the next line is not a separator row; when it is, the separator is
/// reported on its line exactly when its cell count differs from the
/// header's.
pub proof fn law_table_separator(ls: Seq<Seq<char>>, h: int)
    requires
        table_may_start(ls, h),
        h + 1 < ls.len(),
        trim(ls[h]).contains('|'),
        !crate::text::starts_with(trim_start(ls[h]), '`'),
        !crate::text::starts_with(trim_start(ls[h]), '~'),
    ensures
        reports(tables(ls), "MD010"@, (h + 1) as nat) <==> !crate::rules::tables::spec_is_separator_row(ls[h + 1]),
        crate::rules::tables::spec_is_separator_row(ls[h + 1]) ==> (reports(tables(ls), "MD010"@, (h + 2) as nat)
            <==> crate::rules::tables::spec_col_count(ls[h + 1]) != crate::rules::tables::spec_col_count(ls[h])),
{
    lemma_rule_ids();
    let hc = crate::rules::tables::spec_col_count(ls[h]);
    let l1 = (h + 1) as nat;
    let l2 = (h + 2) as nat;
    lemma_tables_reach(ls, 0, TableScan::Text, h, "MD010"@, l1);
    lemma_tables_reach(ls, 0, TableScan::Text, h, "MD010"@, l2);
    assert(trim(ls[h]).len() > 0);
    if crate::rules::tables::spec_is_separator_row(ls[h + 1]) {
        let sep = crate::rules::tables::separator_count_diagnostic(crate::rules::tables::spec_col_count(ls[h + 1]), hc, l2);
        let rest = tables_from(ls, h + 2, TableScan::Body { header_cols: hc });
        lemma_reports_concat(sep, rest, "MD010"@, l1);
        lemma_reports_concat(sep, rest, "MD010"@, l2);
        lemma_tables_lines_after(ls, h + 2, TableScan::Body { header_cols: hc }, "MD010"@, l1);
        lemma_tables_lines_after(ls, h + 2, TableScan::Body { header_cols: hc }, "MD010"@, l2);
        if sep.len() > 0 {
            assert(sep[0].rule == "MD010"@ && sep[0].line == l2);
        }
    } else {
        let miss = seq![crate::rules::tables::missing_separator_diagnostic(l1)];
        let rest = tables_from(ls, h + 1, TableScan::Text);
        lemma_reports_concat(miss, rest, "MD010"@, l1);
        lemma_tables_lines_after(ls, h + 1, TableScan::Text, "MD010"@, l1);
        assert(miss[0].rule == "MD010"@ && miss[0].line == l1);
    }
}

/// Line `l` is an ordered list item with no indentation.
pub open spec fn unindented_ordered_item(l: Seq<char>) -> bool {
    &&& crate::text::leading_ws(l) == 0
    &&& crate::rules::lists::spec_ordered_marker(trim_start(l)) is Some
}

/// An ordered list runs into line `k`: the last non-blank line before it is
/// an unindented ordered item (blank lines in between do not end the list).
pub open spec fn ordered_list_open(ls: Seq<Seq<char>>, k: int) -> bool {
    exists|j: int|
        0 <= j < k && #[trigger] unindented_ordered_item(ls[j]) && forall|m: int|
            j < m < k ==> trim_start(#[trigger] ls[m]).len() == 0
}

/// The list scanner's ordered-item flag before line `i`.
pub open spec fn list_prev_at(ls: Seq<Seq<char>>, i: int) -> bool
    decreases i,
{
    if i <= 0 {
        false
    } else {
        crate::rules::lists::next_prev(ls[i - 1], list_prev_at(ls, i - 1))
    }
}

/// The list scanner's first unordered marker before line `i`.
pub open spec fn list_first_at(ls: Seq<Seq<char>>, i: int) -> Option<char>
    decreases i,
{
    if i <= 0 {
        None
    } else {
        crate::rules::lists::next_first(ls[i - 1], list_first_at(ls, i - 1))
    }
}

/// The scanner's ordered-item flag before line `k` says whether an ordered
/// list runs into line `k`.
proof fn lemma_list_prev_at(ls: Seq<Seq<char>>, k: int)
    requires
        0 <= k <= ls.len(),
    ensures
        list_prev_at(ls, k) == ordered_list_open(ls, k),
    decreases k,
{
    if k > 0 {
        lemma_list_prev_at(ls, k - 1);
        let l = ls[k - 1];
        let t = trim_start(l);
        match crate::rules::lists::spec_ordered_marker(t) {
            Some(_) => {
                assert(t.len() > 0);
                if crate::text::leading_ws(l) == 0 {
                    assert(unindented_ordered_item(ls[k - 1]));
                    assert(forall|m: int| k - 1 < m < k ==> trim_start(#[trigger] ls[m]).len() == 0);
                } else {
                    if ordered_list_open(ls, k) {
                        let j = choose|j: int|
                            0 <= j < k && #[trigger] unindented_ordered_item(ls[j]) && forall|m: int|
                                j < m < k ==> trim_start(#[trigger] ls[m]).len() == 0;
                        assert(j != k - 1);
                        assert(trim_start(ls[k - 1]).len() == 0);
                    }
                }
            },
            None => {
                assert(!unindented_ordered_item(ls[k - 1]));
                if t.len() > 0 {
                    if ordered_list_open(ls, k) {
                        let j = choose|j: int|
                            0 <= j < k && #[trigger] unindented_ordered_item(ls[j]) && forall|m: int|
                                j < m < k ==> trim_start(#[trigger] ls[m]).len() == 0;
                        assert(trim_start(ls[k - 1]).len() == 0);
                    }
                } else {
                    if ordered_list_open(ls, k) {
                        let j = choose|j: int|
                            0 <= j < k && #[trigger] unindented_ordered_item(ls[j]) && forall|m: int|
                                j < m < k ==> trim_start(#[trigger] ls[m]).len() == 0;
                        assert(j < k - 1);
                        assert(ordered_list_open(ls, k - 1));
                    }
                    if ordered_list_open(ls, k - 1) {
                        let j = choose|j: int|
                            0 <= j < k - 1 && #[trigger] unindented_ordered_item(ls[j]) && forall|m: int|
                                j < m < k - 1 ==> trim_start(#[trigger] ls[m]).len() == 0;
                        assert(forall|m: int| j < m < k ==> trim_start(#[trigger] ls[m]).len() == 0);
                        assert(ordered_list_open(ls, k));
                    }
                }
            },
        }
    }
}

/// The list scan from line `i` reaches line `k` in the scanner's state
/// there: what it reports on line `k + 1` is what the scan from `k` does.
proof fn lemma_lists_reach(ls: Seq<Seq<char>>, i: int, k: int, rule: Seq<char>)
    requires
        0 <= i <= k < ls.len(),
    ensures
        reports(lists_from(ls, i, list_first_at(ls, i), list_prev_at(ls, i)), rule, (k + 1) as nat) == reports(
            lists_from(ls, k, list_first_at(ls, k), list_prev_at(ls, k)),
            rule,
            (k + 1) as nat,
        ),
    decreases k - i,
{
    if i < k {
        let raw = ls[i];
        let line_no = (i + 1) as nat;
        let f = list_first_at(ls, i);
        let p = list_prev_at(ls, i);
        let line = (k + 1) as nat;
        lemma_lists_reach(ls, i + 1, k, rule);
        assert(list_first_at(ls, i + 1) == crate::rules::lists::next_first(raw, f));
        assert(list_prev_at(ls, i + 1) == crate::rules::lists::next_prev(raw, p));
        let a = crate::rules::lists::marker_diagnostic(raw, f, line_no);
        let b = crate::rules::lists::start_diagnostic(raw, p, line_no);
        let c = crate::rules::lists::task_diagnostic(raw, line_no);
        lemma_reports_concat(a, b, rule, line);
        lemma_reports_concat(a + b, c, rule, line);
        lemma_reports_concat(a + b + c, lists_from(ls, i + 1, list_first_at(ls, i + 1), list_prev_at(ls, i + 1)), rule, line);
    }
}

/// The list scan from line `i` reports nothing on lines up to `i`.
proof fn lemma_lists_lines_after(ls: Seq<Seq<char>>, i: int, f: Option<char>, p: bool, rule: Seq<char>, line: nat)
    requires
        0 <= i,
        line <= i,
    ensures
        !reports(lists_from(ls, i, f, p), rule, line),
    decreases ls.len() - i,
{
    if i < ls.len() {
        let raw = ls[i];
        let line_no = (i + 1) as nat;
        let nf = crate::rules::lists::next_first(raw, f);
        let np = crate::rules::lists::next_prev(raw, p);
        lemma_lists_lines_after(ls, i + 1, nf, np, rule, line);
        let a = crate::rules::lists::marker_diagnostic(raw, f, line_no);
        let b = crate::rules::lists::start_diagnostic(raw, p, line_no);
        let c = crate::rules::lists::task_diagnostic(raw, line_no);
        lemma_reports_concat(a, b, rule, line);
        lemma_reports_concat(a + b, c, rule, line);
        lemma_reports_concat(a + b + c, lists_from(ls, i + 1, nf, np), rule, line);
    }
}

/// The list check reports on line `k + 1` what that line alone gives in the
/// scanner's state there.
proof fn lemma_lists_at(ls: Seq<Seq<char>>, k: int, rule: Seq<char>)
    requires
        0 <= k < ls.len(),
    ensures
        reports(lists(ls), rule, (k + 1) as nat) == reports(
            crate::rules::lists::marker_diagnostic(ls[k], list_first_at(ls, k), (k + 1) as nat)
                + crate::rules::lists::start_diagnostic(ls[k], list_prev_at(ls, k), (k + 1) as nat)
                + crate::rules::lists::task_diagnostic(ls[k], (k + 1) as nat),
            rule,
            (k + 1) as nat,
        ),
{
    let line = (k + 1) as nat;
    lemma_lists_reach(ls, 0, k, rule);
    let raw = ls[k];
    let f = list_first_at(ls, k);
    let p = list_prev_at(ls, k);
    let nf = crate::rules::lists::next_first(raw, f);
    let np = crate::rules::lists::next_prev(raw, p);
    lemma_lists_lines_after(ls, k + 1, nf, np, rule, line);
    let a = crate::rules::lists::marker_diagnostic(raw, f, line);
    let b = crate::rules::lists::start_diagnostic(raw, p, line);
    let c = crate::rules::lists::task_diagnostic(raw, line);
    lemma_reports_concat(a + b + c, lists_from(ls, k + 1, nf, np), rule, line);
}

/// MD008 is reported only on unindented ordered items: a line that is not
/// one (an indented item, an unordered item, any other line) never is.
pub proof fn law_md008_only_unindented_items(ls: Seq<Seq<char>>, k: int)
    requires
        0 <= k < ls.len(),
        !unindented_ordered_item(ls[k]),
    ensures
        !reports(lists(ls), "MD008"@, (k + 1) as nat),
{
    lemma_rule_ids();
    let line = (k + 1) as nat;
    lemma_lists_at(ls, k, "MD008"@);
    let a = crate::rules::lists::marker_diagnostic(ls[k], list_first_at(ls, k), line);
    let b = crate::rules::lists::start_diagnostic(ls[k], list_prev_at(ls, k), line);
    let c = crate::rules::lists::task_diagnostic(ls[k], line);
    lemma_reports_concat(a, b, "MD008"@, line);
    lemma_reports_concat(a + b, c, "MD008"@, line);
    if a.len() > 0 {
        assert(a[0].rule == "MD007"@);
    }
    if c.len() > 0 {
        assert(c[0].rule == "MD009"@);
    }
    assert(b.len() == 0);
}

/// MD008: an unindented ordered item numbered `n` is reported exactly when
/// `n` is not 1 and no ordered list runs into its line, that is, when the
/// last non-blank line before it is not an unindented ordered item; blank
/// lines between items never start a new list.
pub proof fn law_md008_list_start(ls: Seq<Seq<char>>, k: int, n: nat, delim: char)
    requires
        0 <= k < ls.len(),
        crate::text::leading_ws(ls[k]) == 0,
        crate::rules::lists::spec_ordered_marker(trim_start(ls[k])) == Some((n, delim)),
    ensures
        reports(lists(ls), "MD008"@, (k + 1) as nat) <==> (n != 1 && !ordered_list_open(ls, k)),
{
    lemma_rule_ids();
    let line = (k + 1) as nat;
    lemma_lists_reach(ls, 0, k, "MD008"@);
    lemma_list_prev_at(ls, k);
    let raw = ls[k];
    let f = list_first_at(ls, k);
    let p = list_prev_at(ls, k);
    let nf = crate::rules::lists::next_first(raw, f);
    let np = crate::rules::lists::next_prev(raw, p);
    lemma_lists_lines_after(ls, k + 1, nf, np, "MD008"@, line);
    let a = crate::rules::lists::marker_diagnostic(raw, f, line);
    let b = crate::rules::lists::start_diagnostic(raw, p, line);
    let c = crate::rules::lists::task_diagnostic(raw, line);
    lemma_reports_concat(a, b, "MD008"@, line);
    lemma_reports_concat(a + b, c, "MD008"@, line);
    lemma_reports_concat(a + b + c, lists_from(ls, k + 1, nf, np), "MD008"@, line);
    if a.len() > 0 {
        assert(a[0].rule == "MD007"@);
        assert(!reports(a, "MD008"@, line));
    }
    if c.len() > 0 {
        assert(c[0].rule == "MD009"@);
        assert(!reports(c, "MD008"@, line));
    }
    if b.len() > 0 {
        assert(b[0].rule == "MD008"@ && b[0].line == line);
    }
}

/// `:` when `b` holds, nothing otherwise.
pub open spec fn colon_if(b: bool) -> Seq<char> {
    if b { seq![':'] } else { seq![] }
}

/// An optional `:`, `n` dashes, an optional `:`.
pub open spec fn separator_form(a: bool, b: bool, n: nat) -> Seq<char> {
    colon_if(a) + Seq::new(n, |_i: int| '-') + colon_if(b)
}

/// `split_on` gives at least one piece.
proof fn lemma_split_on_nonempty(s: Seq<char>, sep: char)
    ensures
        crate::rules::tables::split_on(s, sep).len() > 0,
    decreases s.len(),
{
    let k = crate::text::leading_ne(s, sep) as int;
    if k < s.len() {
        lemma_split_on_nonempty(s.skip(k + 1), sep);
    }
}

/// Once trimmed, `cell` is an optional `:`, one or more `-`, and an
/// optional `:`.
pub open spec fn separator_shaped(cell: Seq<char>) -> bool {
    exists|a: bool, b: bool, n: nat| n >= 1 && trim(cell) == #[trigger] separator_form(a, b, n)
}

proof fn lemma_separator_cell_shape(cell: Seq<char>)
    ensures
        crate::rules::tables::separator_cell(cell) <==> separator_shaped(cell),
{
    let c = trim(cell);
    let c1 = crate::rules::tables::strip_prefix_char(c, ':');
    let d = crate::rules::tables::strip_suffix_char(c1, ':');
    if crate::rules::tables::separator_cell(cell) {
        let a = crate::text::starts_with(c, ':');
        let b = crate::text::ends_with(c1, ':');
        let n = d.len();
        assert(Seq::new(n, |_i: int| '-') =~= d);
        if b {
            assert(c1 =~= d + seq![':']);
        } else {
            assert(c1 =~= d);
        }
        if a {
            assert(c =~= seq![':'] + c1);
        } else {
            assert(c =~= c1);
        }
        assert(c =~= separator_form(a, b, n));
    }
    if exists|a: bool, b: bool, n: nat| n >= 1 && c == #[trigger] separator_form(a, b, n) {
        let (a, b, n) = choose|a: bool, b: bool, n: nat| n >= 1 && c == #[trigger] separator_form(a, b, n);
        let ds = Seq::new(n, |_i: int| '-');
        assert(ds[0] == '-');
        assert(c1 =~= ds + colon_if(b)) by {
            if a {
                assert(c[0] == ':');
            } else {
                assert(c[0] == '-');
            }
        }
        assert(d =~= ds) by {
            if b {
                assert(c1.last() == ':');
            } else {
                assert(c1.last() == '-');
            }
        }
    }
}

/// MD010's separator row: once trimmed it holds a `|`, and each of its
/// pipe-delimited cells is, once trimmed, an optional `:`, one or more `-`,
/// and an optional `:` (a blank cell is not a separator cell).
pub proof fn law_separator_row_shape(line: Seq<char>)
    ensures
        crate::rules::tables::spec_is_separator_row(line) <==> ({
            let cells = crate::rules::tables::spec_split_table_cells(trim(line));
            &&& trim(line).contains('|')
            &&& forall|k: int| 0 <= k < cells.len() ==> separator_shaped(#[trigger] cells[k])
        }),
{
    let cells = crate::rules::tables::spec_split_table_cells(trim(line));
    lemma_split_on_nonempty(
        crate::rules::tables::strip_suffix_char(
            crate::rules::tables::strip_prefix_char(trim(trim(line)), '|'),
            '|',
        ),
        '|',
    );
    assert forall|k: int| 0 <= k < cells.len() implies crate::rules::tables::separator_cell(#[trigger] cells[k])
        == separator_shaped(cells[k]) by {
        lemma_separator_cell_shape(cells[k]);
    }
}

proof fn lemma_count_eq_concat(a: Seq<char>, b: Seq<char>, c: char)
    ensures
        crate::text::count_eq(a + b, c) == crate::text::count_eq(a, c) + crate::text::count_eq(b, c),
    decreases b.len(),
{
    if b.len() > 0 {
        lemma_count_eq_concat(a, b.drop_last(), c);
        assert((a + b).drop_last() =~= a + b.drop_last());
    } else {
        assert(a + b =~= a);
    }
}

proof fn lemma_count_eq_none(s: Seq<char>, c: char)
    requires
        forall|j: int| 0 <= j < s.len() ==> #[trigger] s[j] != c,
    ensures
        crate::text::count_eq(s, c) == 0,
    decreases s.len(),
{
    if s.len() > 0 {
        lemma_count_eq_none(s.drop_last(), c);
    }
}

proof fn lemma_leading_ne_facts(s: Seq<char>, c: char)
    ensures
        crate::text::leading_ne(s, c) <= s.len(),
        forall|j: int| 0 <= j < crate::text::leading_ne(s, c) ==> #[trigger] s[j] != c,
        crate::text::leading_ne(s, c) < s.len() ==> s[crate::text::leading_ne(s, c) as int] == c,
    decreases s.len(),
{
    if s.len() > 0 && s[0] != c {
        lemma_leading_ne_facts(s.drop_first(), c);
        assert forall|j: int| 0 <= j < crate::text::leading_ne(s, c) implies #[trigger] s[j] != c by {
            if j > 0 {
                assert(s[j] == s.drop_first()[j - 1]);
            }
        }
    }
}

/// `str::split` gives one piece more than there are separators.
proof fn lemma_split_on_len(s: Seq<char>, sep: char)
    ensures
        crate::rules::tables::split_on(s, sep).len() == crate::text::count_eq(s, sep) + 1,
    decreases s.len(),
{
    let k = crate::text::leading_ne(s, sep) as int;
    lemma_leading_ne_facts(s, sep);
    if k >= s.len() {
        lemma_count_eq_none(s, sep);
    } else {
        lemma_split_on_len(s.skip(k + 1), sep);
        assert(s =~= s.take(k) + seq![sep] + s.skip(k + 1));
        lemma_count_eq_none(s.take(k), sep);
        lemma_count_eq_concat(s.take(k), seq![sep], sep);
        lemma_count_eq_concat(s.take(k) + seq![sep], s.skip(k + 1), sep);
        assert(crate::text::count_eq(seq![sep], sep) == 1) by {
            assert(seq![sep].drop_last() =~= Seq::<char>::empty());
            assert(crate::text::count_eq(Seq::<char>::empty(), sep) == 0);
            assert(seq![sep].last() == sep);
        }
    }
}

/// A table row's column count is one more than the number of `|` it holds
/// between its outer pipes (the trimmed row without one leading and one
/// trailing `|`); blank cells count like any other.
pub proof fn law_table_col_count(row: Seq<char>)
    ensures
        crate::rules::tables::spec_col_count(row) == crate::text::count_eq(
            crate::rules::tables::strip_suffix_char(crate::rules::tables::strip_prefix_char(trim(row), '|'), '|'),
            '|',
        ) + 1,
{
    lemma_split_on_len(
        crate::rules::tables::strip_suffix_char(crate::rules::tables::strip_prefix_char(trim(row), '|'), '|'),
        '|',
    );
}

} // verus!
