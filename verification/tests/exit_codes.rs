//! The command line's exit status, computed from diagnostics.

use gfm_linter::{exit_code, lint};

#[test]
fn no_diagnostics_exit_zero() {
    assert_eq!(exit_code(&lint("# Title\n"), false), 0);
    assert_eq!(exit_code(&Vec::new(), true), 0);
}

#[test]
fn any_error_exits_one() {
    // MD001 (error) and MD012 (warning) on the same line.
    let d = lint("##foo \n");
    assert_eq!(exit_code(&d, false), 1);
    assert_eq!(exit_code(&d, true), 1);
}

#[test]
fn warnings_only_exit_two_unless_suppressed() {
    let d = lint("a \n");
    assert!(!d.is_empty());
    assert_eq!(exit_code(&d, false), 2);
    assert_eq!(exit_code(&d, true), 0);
}
