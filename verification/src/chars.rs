//! Character classifiers shared by the parser and the linter, together
//! with the dialect options that parameterize them.

use vstd::prelude::*;

verus! {

/// A struct to pass parsing options. Contains the switches to enable
/// the different extensions.
#[derive(Clone, Copy, Debug, PartialEq, Eq, Structural)]
pub struct Opts {
    /// Whether the ini compatibility is used. Default: false
    ///
    /// This allows semicolons to be used to start comments.
    pub ini: bool,
    /// Whether the `more-keys` extension is used. Default: false
    ///
    /// This allows a wider range of characters in keys and section headings.
    pub more_keys: bool,
}

impl Default for Opts {
    /// Both extensions are disabled by default.
    fn default() -> (r: Self)
        ensures
            !r.ini,
            !r.more_keys,
    {
        Opts { ini: false, more_keys: false }
    }
}

/// Vertical whitespace: the characters that end a line.
pub open spec fn is_vws(c: char) -> bool {
    c == '\n' || c == '\u{B}' || c == '\u{C}' || c == '\r' || c == '\u{85}' || c == '\u{2028}'
        || c == '\u{2029}'
}

/// The Unicode `White_Space` characters: what `char::is_whitespace` accepts.
pub open spec fn is_white(c: char) -> bool {
    c == '\t' || c == ' ' || is_vws(c) || c == '\u{A0}' || c == '\u{1680}' || ('\u{2000}' <= c
        && c <= '\u{200A}') || c == '\u{202F}' || c == '\u{205F}' || c == '\u{3000}'
}

/// A character that starts a comment under the given options.
pub open spec fn is_comment_c(c: char, opts: Opts) -> bool {
    c == '#' || (opts.ini && c == ';')
}

/// A character that may appear in a key or section name under the given
/// options.
pub open spec fn is_key_c(c: char, opts: Opts) -> bool {
    if opts.more_keys {
        !(c == '[' || c == ']' || c == '=' || c == '`') && !is_comment_c(c, opts) && !is_white(c)
    } else {
        ('0' <= c && c <= '9') || ('a' <= c && c <= 'z') || ('A' <= c && c <= 'Z') || c == '-'
            || c == '_' || c == '.'
    }
}

/// A character that may appear in a bareword value: anything that neither
/// starts a comment nor ends the line.
pub open spec fn is_value_c(c: char, opts: Opts) -> bool {
    !is_comment_c(c, opts) && !is_vws(c)
}

/// Implements Perl's / Raku's `\v`, i.e. vertical whitespace.
pub fn is_vertical_ws(c: &char) -> (r: bool)
    ensures
        r == is_vws(*c),
{
    matches!(*c, '\n' | '\u{B}' | '\u{C}' | '\r' | '\u{85}' | '\u{2028}' | '\u{2029}')
}

/// Whether the character is Unicode whitespace, as `char::is_whitespace`
/// would decide.
pub fn is_space(c: char) -> (r: bool)
    ensures
        r == is_white(c),
{
    matches!(
        c,
        '\t' | '\n' | '\u{B}' | '\u{C}' | '\r' | ' ' | '\u{85}' | '\u{A0}' | '\u{1680}'
            | '\u{2000}'..='\u{200A}' | '\u{2028}' | '\u{2029}' | '\u{202F}' | '\u{205F}'
            | '\u{3000}'
    )
}

/// Whether the character starts a comment. `;` does so exactly when the
/// ini extension is enabled.
pub fn is_comment(c: char, opts: Opts) -> (r: bool)
    ensures
        r == is_comment_c(c, opts),
        c == '#' ==> r,
        c == ';' ==> r == opts.ini,
{
    c == '#' || (opts.ini && c == ';')
}

/// Whether the character may appear in a key. The wide character set is
/// used exactly when the `more-keys` extension is enabled.
pub fn is_key(c: char, opts: Opts) -> (r: bool)
    ensures
        r == is_key_c(c, opts),
{
    if opts.more_keys {
        !matches!(c, '[' | ']' | '=' | '`') && !is_comment(c, opts) && !is_space(c)
    } else {
        matches!(c, '0'..='9' | 'a'..='z' | 'A'..='Z' | '-' | '_' | '.')
    }
}

/// Whether the character may appear in a bareword value.
pub fn is_value(c: char, opts: Opts) -> (r: bool)
    ensures
        r == is_value_c(c, opts),
{
    !(is_comment(c, opts) || is_vertical_ws(&c))
}

} // verus!
