//! The diagnostic linter: it finishes on any input and reports with
//! exact ranges.

use cni_format::LintKind;
use cni_format::Opts;
use cni_format::lint;

fn default_opts() -> Opts {
    Opts { ini: false, more_keys: false }
}

#[test]
fn lint_empty_input() {
    assert_eq!(lint(&default_opts(), ""), vec![]);
}

#[test]
fn lint_clean_document() {
    let out = lint(&default_opts(), "[s]\nk = v\n# comment\n");
    assert_eq!(out, vec![]);
}

#[test]
fn lint_all_comment_chars() {
    // a pathological input full of comment starts still terminates
    let out = lint(&default_opts(), "#########\n#########");
    assert_eq!(out, vec![]);
}

#[test]
fn lint_unterminated_raw() {
    let out = lint(&default_opts(), "a = `");
    assert_eq!(out.len(), 1);
    assert_eq!(out[0].kind, LintKind::UnterminatedRawValue);
    assert_eq!((out[0].start_line, out[0].start_col), (1, 5));
    assert!(out[0].kind.is_syntax_error());
}

#[test]
fn lint_suspects_missing_backtick() {
    // the first key-and-equals candidate inside the unterminated raw
    // value is pointed out
    let out = lint(&default_opts(), "a = `oops\nb = c");
    assert_eq!(out.len(), 2);
    assert_eq!(out[0].kind, LintKind::UnterminatedRawValue);
    assert_eq!((out[0].start_line, out[0].start_col), (1, 5));
    assert_eq!(out[1].kind, LintKind::SuspectedStatement);
    assert_eq!((out[1].start_line, out[1].start_col), (2, 1));
    assert!(!out[1].kind.is_syntax_error());
}

#[test]
fn lint_unexpected_bracket() {
    let out = lint(&default_opts(), "]");
    assert_eq!(out.len(), 1);
    assert_eq!(out[0].kind, LintKind::UnexpectedClosingBracket);
}

#[test]
fn lint_missing_equals() {
    let out = lint(&default_opts(), "key value\n");
    assert!(out.iter().any(|d| d.kind == LintKind::ExpectedEqualsSign));
}

#[test]
fn lint_key_dots() {
    let out = lint(&default_opts(), ".k = v\n");
    assert_eq!(out[0].kind, LintKind::KeyStartsWithDot);

    let out = lint(&default_opts(), "k. = v\n");
    assert_eq!(out[0].kind, LintKind::KeyEndsWithDot);
}

#[test]
fn lint_raw_key() {
    let out = lint(&default_opts(), "`k` = v\n");
    assert_eq!(out[0].kind, LintKind::KeyIsRawValue);
}

#[test]
fn lint_equals_without_key() {
    let out = lint(&default_opts(), "= v\n");
    assert_eq!(out[0].kind, LintKind::ExpectedKeyBeforeEquals);
}

#[test]
fn lint_empty_heading() {
    let out = lint(&default_opts(), "[]\n");
    assert_eq!(out.len(), 1);
    assert_eq!(out[0].kind, LintKind::HeadingOnlyComment);
    assert!(!out[0].kind.is_syntax_error());
}

#[test]
fn lint_heading_with_comment() {
    let out = lint(&default_opts(), "[# note\n]\n");
    assert!(out.iter().any(|d| d.kind == LintKind::CommentInsideHeadingBefore));
}

#[test]
fn lint_unclosed_heading() {
    let out = lint(&default_opts(), "[s\n");
    assert!(out.iter().any(|d| d.kind == LintKind::ExpectedHeadingEnd));
}

#[test]
fn lint_unnecessary_whitespace() {
    let out = lint(&default_opts(), "a = b\n   \nc = d\n");
    assert!(out.iter().any(|d| d.kind == LintKind::UnnecessaryWhitespace));
}

#[test]
fn lint_unescaped_backtick() {
    let out = lint(&default_opts(), "k = `a`b");
    assert!(out.iter().any(|d| d.kind == LintKind::UnescapedBacktick));
}

#[test]
fn lint_positions_ascend_without_mid_token_reports() {
    let out = lint(&default_opts(), "   \nx\n\n[]\n= y\n] z\n");
    let mut prev = (0usize, 0usize);
    for d in &out {
        assert!(prev <= (d.start_line, d.start_col));
        prev = (d.start_line, d.start_col);
    }
}

#[test]
fn lint_render_format() {
    let out = lint(&default_opts(), "a = `");
    assert_eq!(
        out[0].render(),
        "1:5-1:6 syntax error: Expected '`' at end of raw value."
    );
}

#[test]
fn lint_ini_gating() {
    // with the ini dialect a semicolon line is a comment
    let with_ini = lint(&Opts { ini: true, more_keys: false }, "; note\n");
    assert_eq!(with_ini, vec![]);

    // without it the semicolon cannot start a statement
    let without = lint(&default_opts(), "; note\n");
    assert!(without.iter().any(|d| d.kind == LintKind::ExpectedKeyAndEquals));
}

#[test]
fn lint_whitespace_run_reported_once() {
    // the run is reported once, and the statement after it is left
    // untouched
    let out = lint(&default_opts(), " \nz = 1");
    assert_eq!(out.len(), 1);
    assert_eq!(out[0].kind, LintKind::UnnecessaryWhitespace);
    assert_eq!(
        (out[0].start_line, out[0].start_col, out[0].end_line, out[0].end_col),
        (1, 1, 2, 1)
    );
}

#[test]
fn lint_raw_value_closed_at_input_end() {
    // a raw value whose closing backtick is the last input character is
    // terminated, not reported
    let out = lint(&default_opts(), "a = `ok`");
    assert_eq!(out, vec![]);
}

#[test]
fn lint_heading_line_break() {
    let out = lint(&default_opts(), "[\ns]\nk = v\n");
    assert!(out.iter().any(|d| d.kind == LintKind::ConfusingLineBreak));
}

#[test]
fn lint_formatted_text_is_clean() {
    // serialized text comes back without a single report
    let map = vec![
        ("top".to_string(), "1".to_string()),
        ("s.k".to_string(), "value words".to_string()),
        ("s.t.u".to_string(), "".to_string()),
        ("s.raw".to_string(), "with ` tick and\nbreak # sign".to_string()),
    ];
    let text = cni_format::to_str(&map);
    assert_eq!(lint(&default_opts(), &text), vec![]);
}
