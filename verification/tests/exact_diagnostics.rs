//! Exact diagnostics (line, column, rule, message, severity) on small inputs.

use gfm_linter::rules;
use gfm_linter::{lint, lint_accepts, Diagnostic, Severity};

fn summary(d: &[Diagnostic]) -> Vec<(usize, usize, &'static str, String, Severity)> {
    d.iter().map(|x| (x.line, x.col, x.rule, x.message.clone(), x.severity)).collect()
}

fn one(line: usize, col: usize, rule: &'static str, message: &str, severity: Severity) -> (usize, usize, &'static str, String, Severity) {
    (line, col, rule, message.to_string(), severity)
}

#[test]
fn empty_source_has_no_diagnostics() {
    assert!(lint("").is_empty());
}

#[test]
fn md001_exact() {
    let d = lint("##foo\n");
    assert_eq!(
        summary(&d),
        vec![one(1, 1, "MD001", "ATX heading `#` must be followed by a space (got \"foo\")", Severity::Error)]
    );
}

#[test]
fn md001_excerpt_is_four_bytes() {
    let d = lint("#abcdef\n");
    assert_eq!(
        summary(&d),
        vec![one(1, 1, "MD001", "ATX heading `#` must be followed by a space (got \"abcd\")", Severity::Error)]
    );
}

#[test]
fn md001_column_is_a_character_position() {
    // U+3000 is whitespace (three bytes, one character).
    let d = lint("\u{3000}#x\n");
    assert_eq!(
        summary(&d),
        vec![one(1, 2, "MD001", "ATX heading `#` must be followed by a space (got \"x\")", Severity::Error)]
    );
}

#[test]
fn md001_seven_hashes_is_no_heading() {
    assert!(lint("#######foo\n").is_empty());
}

#[test]
fn md002_exact() {
    let d = lint("## foo#\n");
    assert_eq!(
        summary(&d),
        vec![one(
            1,
            1,
            "MD002",
            "ATX heading text ends with `#`; add a space before any trailing `#` to make it a closing sequence",
            Severity::Warning
        )]
    );
}

#[test]
fn md002_escaped_hash_is_fine() {
    assert!(lint("## foo\\#\n").is_empty());
}

#[test]
fn md003_exact() {
    let d = lint("A longer heading\n---\n");
    assert_eq!(
        summary(&d),
        vec![one(
            2,
            1,
            "MD003",
            "Setext heading underline (3 chars) is shorter than heading text (16 chars)",
            Severity::Warning
        )]
    );
}

#[test]
fn md004_exact() {
    let d = lint("***\n\ntext\n\n---\n");
    assert_eq!(
        summary(&d),
        vec![one(5, 1, "MD004", "Inconsistent thematic-break character: expected `*`, found `-`", Severity::Warning)]
    );
}

#[test]
fn md005_exact() {
    let d = lint("```rust\nfn main() {}\n");
    assert_eq!(
        summary(&d),
        vec![one(1, 1, "MD005", "Unclosed fenced code block (opened with `````)", Severity::Error)]
    );
}

#[test]
fn md005_tilde_fence_of_four() {
    let d = lint("~~~~\ncode\n~~~\n");
    assert_eq!(
        summary(&d),
        vec![one(1, 1, "MD005", "Unclosed fenced code block (opened with `~~~~`)", Severity::Error)]
    );
}

#[test]
fn md006_exact() {
    let d = lint("```rust\ncode\n```rust\n");
    assert_eq!(
        summary(&d),
        vec![one(3, 1, "MD006", "Closing code fence must not have an info string", Severity::Error)]
    );
}

#[test]
fn md007_exact() {
    let d = lint("- a\n* b\n");
    assert_eq!(
        summary(&d),
        vec![one(2, 1, "MD007", "Inconsistent unordered list marker: expected `-`, found `*`", Severity::Warning)]
    );
}

#[test]
fn md008_exact() {
    let d = lint("3. first\n4. second\n");
    assert_eq!(summary(&d), vec![one(1, 1, "MD008", "Ordered list should start at 1, found 3", Severity::Warning)]);
}

#[test]
fn md008_leading_zeros() {
    let d = lint("007. x\n");
    assert_eq!(summary(&d), vec![one(1, 1, "MD008", "Ordered list should start at 1, found 7", Severity::Warning)]);
}

#[test]
fn md008_ten_digits_is_no_item() {
    assert!(lint("1234567890. x\n").is_empty());
}

#[test]
fn md009_with_shortcut_reference() {
    let d = lint("- [y] bad marker\n");
    assert_eq!(
        summary(&d),
        vec![
            one(1, 1, "MD009", "Malformed task list item; use `[ ]` or `[x]`, found `[y] `", Severity::Error),
            one(1, 3, "MD016", "Shortcut reference link `[y]` has no matching definition", Severity::Error),
        ]
    );
}

#[test]
fn md009_short_box() {
    let d = lint("1. [y]\n");
    assert_eq!(
        summary(&d),
        vec![
            one(1, 1, "MD009", "Malformed task list item; use `[ ]` or `[x]`, found `[y]`", Severity::Error),
            one(1, 4, "MD016", "Shortcut reference link `[y]` has no matching definition", Severity::Error),
        ]
    );
}

#[test]
fn md010_missing_separator_exact() {
    let d = lint("| A | B |\n| 1 | 2 |\n");
    assert_eq!(
        summary(&d),
        vec![one(
            1,
            1,
            "MD010",
            "GFM table header must be followed by a separator row (e.g. `| --- |`)",
            Severity::Error
        )]
    );
}

#[test]
fn md010_separator_count_exact() {
    let d = lint("| A | B |\n| --- |\n");
    assert_eq!(
        summary(&d),
        vec![one(2, 1, "MD010", "Table separator has 1 column(s) but header has 2", Severity::Error)]
    );
}

#[test]
fn md011_exact() {
    let d = lint("| A | B |\n| --- | --- |\n| 1 | 2 | 3 |\n");
    assert_eq!(
        summary(&d),
        vec![one(3, 1, "MD011", "Table row has 3 column(s) but header has 2", Severity::Warning)]
    );
}

#[test]
fn md011_blank_cell_still_counts() {
    let mut diags = Vec::new();
    rules::tables::check("| A | B | C |\n| --- | --- | --- |\n| 1 |  | 3 |\n", &mut diags);
    assert!(diags.is_empty());
}

#[test]
fn md010_blank_separator_cell_rejected() {
    let missing = "GFM table header must be followed by a separator row (e.g. `| --- |`)";
    let mut a = Vec::new();
    rules::tables::check("| A |\n| |\n", &mut a);
    assert_eq!(summary(&a), vec![one(1, 1, "MD010", missing, Severity::Error)]);
    let mut b = Vec::new();
    rules::tables::check("| A | B |\n| --- |  |\n", &mut b);
    assert_eq!(summary(&b), vec![one(1, 1, "MD010", missing, Severity::Error)]);
}

#[test]
fn md011_colons_in_separator() {
    assert!(lint("| A | B |\n|:---|---:|\n| 1 | 2 |\n").is_empty());
}

#[test]
fn tables_inside_fences_are_skipped() {
    let d = lint("```\n| A | B |\n| 1 | 2 |\n```\n");
    assert!(d.is_empty());
}

#[test]
fn md012_exact() {
    let d = lint("line one   \nline two\n");
    assert_eq!(
        summary(&d),
        vec![one(
            1,
            9,
            "MD012",
            "Trailing whitespace (3 character(s)); remove or use exactly 2 spaces for a hard line break",
            Severity::Warning
        )]
    );
}

#[test]
fn md012_and_md013_at_same_position_keep_rule_order() {
    let d = lint("x\t\n");
    assert_eq!(
        summary(&d),
        vec![
            one(1, 2, "MD013", "Tab character found; use spaces for indentation", Severity::Warning),
            one(
                1,
                2,
                "MD012",
                "Trailing tab (1 character(s)); remove or use exactly 2 spaces for a hard line break",
                Severity::Warning
            ),
        ]
    );
}

#[test]
fn md013_column_is_a_character_position() {
    let d = lint("\u{e9}\tz\n");
    assert_eq!(
        summary(&d),
        vec![one(1, 2, "MD013", "Tab character found; use spaces for indentation", Severity::Warning)]
    );
}

#[test]
fn hard_break_with_crlf_is_fine() {
    assert!(lint("a  \r\nb\n").is_empty());
}

#[test]
fn lone_carriage_return_is_trailing_whitespace() {
    let d = lint("a\r");
    assert_eq!(
        summary(&d),
        vec![one(
            1,
            2,
            "MD012",
            "Trailing whitespace (1 character(s)); remove or use exactly 2 spaces for a hard line break",
            Severity::Warning
        )]
    );
}

#[test]
fn md012_counts_bytes() {
    let d = lint("a\u{3000}\n");
    assert_eq!(
        summary(&d),
        vec![one(
            1,
            2,
            "MD012",
            "Trailing whitespace (3 character(s)); remove or use exactly 2 spaces for a hard line break",
            Severity::Warning
        )]
    );
}

#[test]
fn md014_exact() {
    let d = lint("para 1\n\n\npara 2\n");
    assert_eq!(summary(&d), vec![one(3, 1, "MD014", "More than one consecutive blank line", Severity::Warning)]);
}

#[test]
fn md014_each_extra_blank_line() {
    let d = lint("a\n\n\n\nb\n");
    assert_eq!(
        summary(&d),
        vec![
            one(3, 1, "MD014", "More than one consecutive blank line", Severity::Warning),
            one(4, 1, "MD014", "More than one consecutive blank line", Severity::Warning),
        ]
    );
}

#[test]
fn md015_exact() {
    let d = lint("See ![](cat.png)\n");
    assert_eq!(
        summary(&d),
        vec![one(1, 5, "MD015", "Image has empty alt text; provide descriptive alt text", Severity::Warning)]
    );
}

#[test]
fn md016_exact() {
    let d = lint("[foo][baz]\n");
    assert_eq!(
        summary(&d),
        vec![one(1, 1, "MD016", "Reference link `[baz]` has no matching definition", Severity::Error)]
    );
}

#[test]
fn md016_collapsed_reference_matches_case_insensitively() {
    assert!(lint("[Foo][]\n\n[foo]: /url\n").is_empty());
}

#[test]
fn md016_labels_collapse_whitespace() {
    assert!(lint("[Foo   Bar]\n\n[foo bar]: /u\n").is_empty());
}

#[test]
fn md016_unicode_lowercase() {
    assert!(lint("[\u{c9}T\u{c9}]\n\n[\u{e9}t\u{e9}]: /u\n").is_empty());
}

#[test]
fn md016_escaped_bracket_inside_text() {
    let d = lint("[a\\]b]\n");
    assert_eq!(
        summary(&d),
        vec![one(1, 1, "MD016", "Shortcut reference link `[a\\]b]` has no matching definition", Severity::Error)]
    );
}

#[test]
fn links_inside_fences_are_skipped() {
    assert!(lint("```\n[nope]\n```\n").is_empty());
}

#[test]
fn output_is_sorted_by_line_then_column() {
    let d = lint("##foo \n");
    assert_eq!(
        summary(&d),
        vec![
            one(1, 1, "MD001", "ATX heading `#` must be followed by a space (got \"foo \")", Severity::Error),
            one(
                1,
                6,
                "MD012",
                "Trailing whitespace (1 character(s)); remove or use exactly 2 spaces for a hard line break",
                Severity::Warning
            ),
        ]
    );
}

#[test]
fn output_sorted_across_rules() {
    let d = lint("- a\n\n\n* b\n```\n");
    let keys: Vec<(usize, usize, &str)> = d.iter().map(|x| (x.line, x.col, x.rule)).collect();
    assert_eq!(keys, vec![(3, 1, "MD014"), (4, 1, "MD007"), (5, 1, "MD005")]);
}

#[test]
fn display_forms() {
    let d = lint("para 1\n\n\npara 2\n");
    assert_eq!(d[0].to_string(), "3:1: warning [MD014] More than one consecutive blank line");
    assert_eq!(Severity::Error.to_string(), "error");
    assert_eq!(Severity::Warning.to_string(), "warning");
}

#[test]
fn lint_accepts_excerpts_on_char_boundaries() {
    assert!(lint_accepts("#abc\n"));
    assert!(lint_accepts("#abcd\u{e9}\n"));
    assert!(!lint_accepts("#abc\u{e9}\n"));
    assert!(lint_accepts("- [y]\n"));
    assert!(!lint_accepts("- [y]\u{e9}\n"));
    assert!(lint_accepts(""));
}

#[test]
fn single_rule_checks_append() {
    let mut diags = Vec::new();
    rules::whitespace::check("a \n", &mut diags);
    rules::headings::check("#a\n", &mut diags);
    let keys: Vec<&str> = diags.iter().map(|x| x.rule).collect();
    assert_eq!(keys, vec!["MD012", "MD001"]);
}
