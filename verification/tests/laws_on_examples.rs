//! The whole-linter properties, checked on concrete documents.

use gfm_linter::rules;
use gfm_linter::{lint, Diagnostic, Severity};

const SAMPLE: &str = "##Heading\n\
Title\n\
--\n\
***\n\
---\n\
- a\n\
+ b\n\
3. three\n\
- [y] task\n\
| A | B |\n\
| 1 | 2 |\n\
trailing   \n\
\ttab\n\
\n\
\n\
![](img.png) [nope]\n\
```\n\
unclosed\n";

fn key(d: &Diagnostic) -> (usize, usize, &'static str, String, Severity) {
    (d.line, d.col, d.rule, d.message.clone(), d.severity)
}

fn table_severity(rule: &str) -> Severity {
    match rule {
        "MD001" | "MD005" | "MD006" | "MD009" | "MD010" | "MD016" => Severity::Error,
        _ => Severity::Warning,
    }
}

#[test]
fn lint_is_the_rule_checks_in_reading_order() {
    let d = lint(SAMPLE);
    let mut all = Vec::new();
    rules::headings::check(SAMPLE, &mut all);
    rules::thematic_break::check(SAMPLE, &mut all);
    rules::code_fences::check(SAMPLE, &mut all);
    rules::lists::check(SAMPLE, &mut all);
    rules::tables::check(SAMPLE, &mut all);
    rules::whitespace::check(SAMPLE, &mut all);
    rules::links::check(SAMPLE, &mut all);
    assert!(all.len() >= 10);
    let mut expected: Vec<_> = all.iter().map(key).collect();
    expected.sort_by_key(|k| (k.0, k.1));
    let got: Vec<_> = d.iter().map(key).collect();
    assert_eq!(got, expected);
    for w in d.windows(2) {
        assert!((w[0].line, w[0].col) <= (w[1].line, w[1].col));
    }
}

#[test]
fn every_diagnostic_is_well_placed() {
    let d = lint(SAMPLE);
    let n = SAMPLE.lines().count();
    assert!(!d.is_empty());
    for x in &d {
        assert!(1 <= x.line && x.line <= n, "{x:?}");
        assert!(x.col >= 1, "{x:?}");
        assert_eq!(x.severity, table_severity(x.rule), "{x:?}");
    }
}

#[test]
fn consistent_markers_and_breaks_are_not_reported() {
    let d = lint("***\n\n- a\n- b\n\n****\n");
    let rules: Vec<&str> = d.iter().map(|x| x.rule).collect();
    assert!(!rules.contains(&"MD004"));
    assert!(!rules.contains(&"MD007"));
}

#[test]
fn each_mismatching_break_is_reported() {
    let d = lint("***\n\n---\n\n___\n\n***\n");
    let lines: Vec<usize> = d.iter().filter(|x| x.rule == "MD004").map(|x| x.line).collect();
    assert_eq!(lines, vec![3, 5]);
}

#[test]
fn same_position_keeps_rule_order() {
    let d = lint("#a|b\nx\n");
    let got: Vec<(usize, usize, &str)> = d.iter().map(|x| (x.line, x.col, x.rule)).collect();
    assert_eq!(got, vec![(1, 1, "MD001"), (1, 1, "MD010")]);
}

#[test]
fn each_check_reports_only_its_rules() {
    let checks: Vec<(fn(&str, &mut Vec<Diagnostic>), Vec<&str>)> = vec![
        (rules::headings::check, vec!["MD001", "MD002", "MD003"]),
        (rules::thematic_break::check, vec!["MD004"]),
        (rules::code_fences::check, vec!["MD005", "MD006"]),
        (rules::lists::check, vec!["MD007", "MD008", "MD009"]),
        (rules::tables::check, vec!["MD010", "MD011"]),
        (rules::whitespace::check, vec!["MD012", "MD013", "MD014"]),
        (rules::links::check, vec!["MD015", "MD016"]),
    ];
    for (check, own) in checks {
        let mut d = Vec::new();
        check(SAMPLE, &mut d);
        assert!(!d.is_empty());
        for x in &d {
            assert!(own.contains(&x.rule), "{x:?}");
        }
    }
}

#[test]
fn unresolved_references_point_at_their_bracket() {
    let line = "see [foo] and [bar][baz]";
    let source = format!("{line}\n");
    let d: Vec<Diagnostic> = lint(&source).into_iter().filter(|x| x.rule == "MD016").collect();
    let cols: Vec<usize> = d.iter().map(|x| x.col).collect();
    assert_eq!(cols, vec![5, 15]);
    let chars: Vec<char> = line.chars().collect();
    for x in &d {
        assert_eq!(x.line, 1);
        assert_eq!(x.severity, Severity::Error);
        assert_eq!(chars[x.col - 1], '[');
    }
}

#[test]
fn atx_closing_sequence_forms() {
    let md002 = |s: &str| lint(s).iter().any(|x| x.rule == "MD002");
    assert!(md002("# Title#\n"));
    assert!(!md002("# Title #\n"));
    assert!(!md002("# Title ##   \n"));
    assert!(!md002("# ###\n"));
}

#[test]
fn backtick_info_string_closes_but_does_not_open() {
    assert!(lint("``` a`b\n").iter().all(|x| x.rule != "MD005"));
    let d = lint("```\ncode\n``` a`b\n");
    let got: Vec<(usize, &str)> = d.iter().map(|x| (x.line, x.rule)).collect();
    assert_eq!(got, vec![(3, "MD006")]);
}
