//! The diagnostic linter: walks the same grammar as the strict parser
//! but never stops on malformed input. Every syntactic unit yields zero
//! or more diagnostics, and scanning always reaches the end of the
//! input: every loop here carries a termination measure, so one lint
//! pass is proved to finish on any finite text.
//!
//! The reports themselves are specified: [`lint_spec`] says, construct
//! by construct, which diagnostics the scan of a text produces and in
//! which order, and [`lint`] is proved to return exactly that.

use vstd::prelude::*;

use crate::chars::Opts;
use crate::chars::is_comment;
use crate::chars::is_key;
use crate::chars::is_comment_c;
use crate::chars::is_key_c;
use crate::chars::is_space;
use crate::chars::is_value;
use crate::chars::is_value_c;
use crate::chars::is_vertical_ws;
use crate::chars::is_vws;
use crate::chars::is_white;
use crate::iter::Iter;
use crate::iter::cursor_at;
use crate::text::chars_of;
use crate::text::string_of;

verus! {

/// What a diagnostic reports.
#[derive(Clone, Copy, Debug, PartialEq, Eq, Structural)]
pub enum LintKind {
    /// Horizontal whitespace that spans into or through blank lines.
    UnnecessaryWhitespace,
    /// A `]` outside any section heading.
    UnexpectedClosingBracket,
    /// A section heading that holds nothing but a comment.
    HeadingOnlyComment,
    /// A section heading with an empty name.
    HeadingEmpty,
    /// A comment between `[` and the heading name.
    CommentInsideHeadingBefore,
    /// A comment between the heading name and `]`.
    CommentInsideHeadingAfter,
    /// A line break inside a section heading.
    ConfusingLineBreak,
    /// A heading that never reaches its `]`.
    ExpectedHeadingEnd,
    /// A key or section name that starts with a dot.
    KeyStartsWithDot,
    /// A key or section name that ends with a dot.
    KeyEndsWithDot,
    /// A key or section name written as a raw value.
    KeyIsRawValue,
    /// A key without an `=` after it.
    ExpectedEqualsSign,
    /// A lone backtick inside a raw value.
    UnescapedBacktick,
    /// A raw value that never reaches its closing backtick.
    UnterminatedRawValue,
    /// A plausible statement start inside an unterminated raw value.
    SuspectedStatement,
    /// An `=` before any key.
    ExpectedKeyBeforeEquals,
    /// A leading character that can start no statement.
    ExpectedKeyAndEquals,
}

impl LintKind {
    /// Whether the diagnostic is an error rather than advice.
    pub fn is_syntax_error(&self) -> (r: bool)
        ensures
            r == spec_is_syntax_error(*self),
    {
        match self {
            LintKind::UnnecessaryWhitespace => false,
            LintKind::HeadingOnlyComment => false,
            LintKind::HeadingEmpty => false,
            LintKind::CommentInsideHeadingBefore => false,
            LintKind::CommentInsideHeadingAfter => false,
            LintKind::ConfusingLineBreak => false,
            LintKind::SuspectedStatement => false,
            _ => true,
        }
    }

    /// The human-readable message of this diagnostic.
    pub fn message(&self) -> (r: &'static str)
        ensures
            r@ == spec_message(*self),
    {
        match self {
            LintKind::UnnecessaryWhitespace => "unnecessary whitespace",
            LintKind::UnexpectedClosingBracket => "Unexpected closing square bracket.",
            LintKind::HeadingOnlyComment => "This section heading only contains a comment, is this intentional?",
            LintKind::HeadingEmpty => "This section heading is empty. You can avoid empty section headings by putting items in this section at the start of the file.",
            LintKind::CommentInsideHeadingBefore => "This is not a good place to put a comment, consider putting it before the section heading.",
            LintKind::CommentInsideHeadingAfter => "This is not a good place to put a comment, consider putting it after the section heading.",
            LintKind::ConfusingLineBreak => "A line break here may be confusing.",
            LintKind::ExpectedHeadingEnd => "Expected ']' for end of section heading.",
            LintKind::KeyStartsWithDot => "A key or section heading can not start with a dot.",
            LintKind::KeyEndsWithDot => "A key or section heading can not end with a dot.",
            LintKind::KeyIsRawValue => "A key or section heading can not be a raw value.",
            LintKind::ExpectedEqualsSign => "Expected '=' after key.",
            LintKind::UnescapedBacktick => "Unescaped backtick inside raw value. Use '``' to represent a backtick in a raw value.",
            LintKind::UnterminatedRawValue => "Expected '`' at end of raw value.",
            LintKind::SuspectedStatement => "This looks like a new statement, did you forget to put a backtick here?",
            LintKind::ExpectedKeyBeforeEquals => "Expected key before '='.",
            LintKind::ExpectedKeyAndEquals => "Expected key and '=' before value.",
        }
    }
}

/// The message text of each diagnostic kind.
pub open spec fn spec_message(k: LintKind) -> Seq<char> {
    match k {
        LintKind::UnnecessaryWhitespace => "unnecessary whitespace"@,
        LintKind::UnexpectedClosingBracket => "Unexpected closing square bracket."@,
        LintKind::HeadingOnlyComment => "This section heading only contains a comment, is this intentional?"@,
        LintKind::HeadingEmpty => "This section heading is empty. You can avoid empty section headings by putting items in this section at the start of the file."@,
        LintKind::CommentInsideHeadingBefore => "This is not a good place to put a comment, consider putting it before the section heading."@,
        LintKind::CommentInsideHeadingAfter => "This is not a good place to put a comment, consider putting it after the section heading."@,
        LintKind::ConfusingLineBreak => "A line break here may be confusing."@,
        LintKind::ExpectedHeadingEnd => "Expected ']' for end of section heading."@,
        LintKind::KeyStartsWithDot => "A key or section heading can not start with a dot."@,
        LintKind::KeyEndsWithDot => "A key or section heading can not end with a dot."@,
        LintKind::KeyIsRawValue => "A key or section heading can not be a raw value."@,
        LintKind::ExpectedEqualsSign => "Expected '=' after key."@,
        LintKind::UnescapedBacktick => "Unescaped backtick inside raw value. Use '``' to represent a backtick in a raw value."@,
        LintKind::UnterminatedRawValue => "Expected '`' at end of raw value."@,
        LintKind::SuspectedStatement => "This looks like a new statement, did you forget to put a backtick here?"@,
        LintKind::ExpectedKeyBeforeEquals => "Expected key before '='."@,
        LintKind::ExpectedKeyAndEquals => "Expected key and '=' before value."@,
    }
}

/// Whether the kind is an error rather than advice.
pub open spec fn spec_is_syntax_error(k: LintKind) -> bool {
    match k {
        LintKind::UnnecessaryWhitespace => false,
        LintKind::HeadingOnlyComment => false,
        LintKind::HeadingEmpty => false,
        LintKind::CommentInsideHeadingBefore => false,
        LintKind::CommentInsideHeadingAfter => false,
        LintKind::ConfusingLineBreak => false,
        LintKind::SuspectedStatement => false,
        _ => true,
    }
}

/// One remark of the linter: the source range it speaks about and what
/// it reports there.
#[derive(Clone, Copy, Debug, PartialEq, Eq, Structural)]
pub struct Diagnostic {
    /// Line where the range starts, counting from 1.
    pub start_line: usize,
    /// Column where the range starts, counting from 1.
    pub start_col: usize,
    /// Line where the range ends.
    pub end_line: usize,
    /// Column where the range ends.
    pub end_col: usize,
    /// What is reported.
    pub kind: LintKind,
}

/// The decimal digits of a number, most significant first.
pub open spec fn dec_digits(n: nat) -> Seq<char>
    decreases n,
{
    if n < 10 {
        seq![digit_char(n)]
    } else {
        dec_digits(n / 10).push(digit_char(n % 10))
    }
}

/// The character for one decimal digit.
pub open spec fn digit_char(d: nat) -> char {
    if d == 0 {
        '0'
    } else if d == 1 {
        '1'
    } else if d == 2 {
        '2'
    } else if d == 3 {
        '3'
    } else if d == 4 {
        '4'
    } else if d == 5 {
        '5'
    } else if d == 6 {
        '6'
    } else if d == 7 {
        '7'
    } else if d == 8 {
        '8'
    } else {
        '9'
    }
}

/// The character for one decimal digit, executable form.
fn digit_of(d: usize) -> (r: char)
    requires
        d < 10,
    ensures
        r == digit_char(d as nat),
{
    match d {
        0 => '0',
        1 => '1',
        2 => '2',
        3 => '3',
        4 => '4',
        5 => '5',
        6 => '6',
        7 => '7',
        8 => '8',
        _ => '9',
    }
}

/// The decimal digits of `n`, as characters.
fn usize_digits(n: usize) -> (r: Vec<char>)
    ensures
        r@ == dec_digits(n as nat),
    decreases n,
{
    let d = n % 10;
    let c = digit_of(d);
    if n < 10 {
        let mut r: Vec<char> = Vec::new();
        r.push(c);
        proof {
            assert(r@ =~= seq![digit_char(n as nat)]);
        }
        r
    } else {
        let mut r = usize_digits(n / 10);
        r.push(c);
        proof {
            assert(n as nat / 10 == (n / 10) as nat);
            assert(n as nat % 10 == d as nat);
        }
        r
    }
}

impl Diagnostic {
    /// The line the linter prints for this diagnostic:
    /// `LINE:COL-LINE:COL SEVERITY: MESSAGE`.
    pub fn render(&self) -> (r: String)
        ensures
            r@ == dec_digits(self.start_line as nat).add(":"@).add(
                dec_digits(self.start_col as nat),
            ).add("-"@).add(dec_digits(self.end_line as nat)).add(":"@).add(
                dec_digits(self.end_col as nat),
            ).add(" "@).add(
                if spec_is_syntax_error(self.kind) {
                    "syntax error"@
                } else {
                    "info"@
                },
            ).add(": "@).add(spec_message(self.kind)),
    {
        let mut s = string_of(&usize_digits(self.start_line));
        s.append(":");
        let t = string_of(&usize_digits(self.start_col));
        s.append(t.as_str());
        s.append("-");
        let t = string_of(&usize_digits(self.end_line));
        s.append(t.as_str());
        s.append(":");
        let t = string_of(&usize_digits(self.end_col));
        s.append(t.as_str());
        s.append(" ");
        if self.kind.is_syntax_error() {
            s.append("syntax error");
        } else {
            s.append("info");
        }
        s.append(": ");
        s.append(self.kind.message());
        s
    }
}

/// The text with every CRLF pair replaced by a single line feed.
pub open spec fn normalize_crlf(s: Seq<char>) -> Seq<char>
    decreases s.len(),
{
    if s.len() == 0 {
        Seq::empty()
    } else if s.len() >= 2 && s[0] == '\r' && s[1] == '\n' {
        seq!['\n'].add(normalize_crlf(s.skip(2)))
    } else {
        seq![s[0]].add(normalize_crlf(s.skip(1)))
    }
}

/// Replaces every CRLF pair by a single line feed, as the linter does
/// before scanning.
fn replace_crlf(v: &Vec<char>) -> (r: Vec<char>)
    ensures
        r@ == normalize_crlf(v@),
        r@.len() <= v@.len(),
{
    let ghost s = v@;
    let mut r: Vec<char> = Vec::new();
    let mut i: usize = 0;
    proof {
        assert(s.skip(0) =~= s);
        assert(r@.add(normalize_crlf(s)) =~= normalize_crlf(s));
    }
    loop
        invariant
            0 <= i <= s.len(),
            s == v@,
            r@.len() <= i,
            normalize_crlf(s) == r@.add(normalize_crlf(s.skip(i as int))),
        ensures
            r@ == normalize_crlf(s),
            r@.len() <= s.len(),
        decreases s.len() - i,
    {
        let ghost suf = s.skip(i as int);
        let ghost r0 = r@;
        if i < v.len() {
            let c = v[i];
            proof {
                assert(suf[0] == s[i as int]);
            }
            if c == '\r' && i + 1 < v.len() && v[i + 1] == '\n' {
                r.push('\n');
                proof {
                    assert(suf[1] == s[i + 1]);
                    assert(suf.skip(2) =~= s.skip(i + 2));
                    assert(normalize_crlf(suf) == seq!['\n'].add(normalize_crlf(s.skip(i + 2))));
                    assert(r@ =~= r0.add(seq!['\n']));
                    assert(r0.add(seq!['\n']).add(normalize_crlf(s.skip(i + 2))) =~= r0.add(
                        normalize_crlf(suf),
                    ));
                }
                i += 2;
            } else {
                r.push(c);
                proof {
                    assert(suf.skip(1) =~= s.skip(i + 1));
                    assert(normalize_crlf(suf) == seq![c].add(normalize_crlf(s.skip(i + 1))));
                    assert(r@ =~= r0.add(seq![c]));
                    assert(r0.add(seq![c]).add(normalize_crlf(s.skip(i + 1))) =~= r0.add(
                        normalize_crlf(suf),
                    ));
                }
                i += 1;
            }
        } else {
            proof {
                assert(suf.len() == 0);
                assert(normalize_crlf(suf) == Seq::<char>::empty());
                assert(r@.add(normalize_crlf(suf)) =~= r@);
            }
            break;
        }
    }
    r
}

/// One source position comes no later than another, comparing lines
/// first and columns inside a line.
pub open spec fn pos_le(l1: int, c1: int, l2: int, c2: int) -> bool {
    l1 < l2 || (l1 == l2 && c1 <= c2)
}

/// The cursor never moves backwards as the scanner advances.
pub proof fn lemma_cursor_monotone(s: Seq<char>, i: int, j: int)
    requires
        0 <= i <= j,
    ensures
        pos_le(cursor_at(s, i).0, cursor_at(s, i).1, cursor_at(s, j).0, cursor_at(s, j).1),
    decreases j - i,
{
    if i < j {
        lemma_cursor_monotone(s, i, j - 1);
    }
}

/// The diagnostics that point into the middle of a token. Anchoring a
/// whole-token remark at the token's start can then move the report
/// backwards, so position order is only claimed of outputs without
/// them.
pub open spec fn mid_token(k: LintKind) -> bool {
    k == LintKind::KeyStartsWithDot || k == LintKind::KeyEndsWithDot || k
        == LintKind::KeyIsRawValue || k == LintKind::UnescapedBacktick
}

/// The output holds no mid-token diagnostic.
pub open spec fn clean(ds: Seq<Diagnostic>) -> bool {
    forall|i: int| 0 <= i < ds.len() ==> !mid_token(ds[i].kind)
}

/// The diagnostics' start positions never decrease.
pub open spec fn starts_sorted(ds: Seq<Diagnostic>) -> bool {
    forall|i: int, j: int|
        0 <= i < j < ds.len() ==> pos_le(
            ds[i].start_line as int,
            ds[i].start_col as int,
            ds[j].start_line as int,
            ds[j].start_col as int,
        )
}

/// Every start position comes no later than the given cursor.
pub open spec fn bounded_by(ds: Seq<Diagnostic>, l: int, c: int) -> bool {
    forall|i: int|
        0 <= i < ds.len() ==> pos_le(ds[i].start_line as int, ds[i].start_col as int, l, c)
}

/// The linter's running invariant: as long as no mid-token diagnostic
/// has been emitted, the output is position-ordered and never runs
/// ahead of the scanner.
pub open spec fn lint_inv(ds: Seq<Diagnostic>, l: int, c: int) -> bool {
    clean(ds) ==> starts_sorted(ds) && bounded_by(ds, l, c)
}

/// A well-formed report range: 1-based positions, the start not after
/// the end.
pub open spec fn diag_wf(d: Diagnostic) -> bool {
    &&& 1 <= d.start_line
    &&& 1 <= d.start_col
    &&& 1 <= d.end_line
    &&& 1 <= d.end_col
    &&& pos_le(d.start_line as int, d.start_col as int, d.end_line as int, d.end_col as int)
}

/// Every report carries a well-formed range.
pub open spec fn diags_wf(ds: Seq<Diagnostic>) -> bool {
    forall|i: int| 0 <= i < ds.len() ==> diag_wf(#[trigger] ds[i])
}

/// The report spanning from text position `a` to text position `b`.
pub open spec fn diag_at(s: Seq<char>, a: int, b: int, kind: LintKind) -> Diagnostic {
    Diagnostic {
        start_line: cursor_at(s, a).0 as usize,
        start_col: cursor_at(s, a).1 as usize,
        end_line: cursor_at(s, b).0 as usize,
        end_col: cursor_at(s, b).1 as usize,
        kind,
    }
}

/// The report covering the single character cell at text position `a`.
pub open spec fn diag_cell(s: Seq<char>, a: int, kind: LintKind) -> Diagnostic {
    Diagnostic {
        start_line: cursor_at(s, a).0 as usize,
        start_col: cursor_at(s, a).1 as usize,
        end_line: cursor_at(s, a).0 as usize,
        end_col: (cursor_at(s, a).1 + 1) as usize,
        kind,
    }
}

/// The first position at or after `i` that does not hold vertical
/// whitespace.
pub open spec fn vws_end(s: Seq<char>, i: int) -> int
    decreases s.len() - i,
    when 0 <= i <= s.len()
{
    if i == s.len() || !is_vws(s[i]) {
        i
    } else {
        vws_end(s, i + 1)
    }
}

pub proof fn lemma_vws_end(s: Seq<char>, i: int)
    requires
        0 <= i <= s.len(),
    ensures
        i <= vws_end(s, i) <= s.len(),
        i < s.len() && is_vws(s[i]) ==> vws_end(s, i) > i,
    decreases s.len() - i,
{
    if i < s.len() && is_vws(s[i]) {
        lemma_vws_end(s, i + 1);
    }
}

/// What the linter says about one whitespace run that began at `r0`:
/// an advisory report wherever a line break is directly followed by
/// something other than whitespace.
pub open spec fn wsrun_spec(s: Seq<char>, r0: int, p: int) -> (Seq<Diagnostic>, int)
    decreases s.len() - p,
    when 0 <= p <= s.len()
{
    if p >= s.len() {
        (Seq::empty(), p)
    } else if is_vws(s[p]) {
        let q = p + 1;
        let d: Seq<Diagnostic> = if q < s.len() && !is_white(s[q]) {
            seq![diag_at(s, r0, q, LintKind::UnnecessaryWhitespace)]
        } else {
            Seq::empty()
        };
        let rec = wsrun_spec(s, r0, q);
        (d.add(rec.0), rec.1)
    } else if !is_white(s[p]) {
        (Seq::empty(), p)
    } else {
        wsrun_spec(s, r0, p + 1)
    }
}

pub proof fn lemma_wsrun_bounds(s: Seq<char>, r0: int, p: int)
    requires
        0 <= p <= s.len(),
    ensures
        p <= wsrun_spec(s, r0, p).1 <= s.len(),
        p < s.len() && is_white(s[p]) ==> wsrun_spec(s, r0, p).1 > p,
    decreases s.len() - p,
{
    if p < s.len() && is_vws(s[p]) {
        lemma_wsrun_bounds(s, r0, p + 1);
    } else if p < s.len() && is_white(s[p]) {
        lemma_wsrun_bounds(s, r0, p + 1);
    }
}

/// What the linter's key walk says from position `p` on: a report for
/// every dot that ends a run of key characters.
pub open spec fn ck_walk(s: Seq<char>, p: int, opts: Opts) -> (Seq<Diagnostic>, int)
    decreases s.len() - p,
    when 0 <= p <= s.len()
{
    if p >= s.len() || !is_key_c(s[p], opts) {
        (Seq::empty(), p)
    } else {
        let d: Seq<Diagnostic> = if p + 1 < s.len() && !is_key_c(s[p + 1], opts) && s[p]
            == '.' {
            seq![diag_cell(s, p + 1, LintKind::KeyEndsWithDot)]
        } else {
            Seq::empty()
        };
        let rec = ck_walk(s, p + 1, opts);
        (d.add(rec.0), rec.1)
    }
}

pub proof fn lemma_ck_walk_bounds(s: Seq<char>, p: int, opts: Opts)
    requires
        0 <= p <= s.len(),
    ensures
        p <= ck_walk(s, p, opts).1 <= s.len(),
    decreases s.len() - p,
{
    if p < s.len() && is_key_c(s[p], opts) {
        lemma_ck_walk_bounds(s, p + 1, opts);
    }
}

/// What the linter's key check says for a key or section name starting
/// at `i`: a leading-dot report, the key walk, and the raw-literal
/// rejections around it.
pub open spec fn ck_spec(s: Seq<char>, i: int, opts: Opts) -> (Seq<Diagnostic>, int) {
    let lead: Seq<Diagnostic> = if i < s.len() && s[i] == '.' {
        seq![diag_cell(s, i, LintKind::KeyStartsWithDot)]
    } else {
        Seq::empty()
    };
    let pseudo = i < s.len() && s[i] == '`';
    let wstart: int = if pseudo {
        i + 1
    } else {
        i
    };
    let walk = ck_walk(s, wstart, opts);
    let w = walk.1;
    if pseudo {
        let e: int = if w < s.len() && s[w] == '`' {
            w + 1
        } else {
            w
        };
        (lead.add(walk.0).add(seq![diag_at(s, i, e, LintKind::KeyIsRawValue)]), e)
    } else {
        if w < s.len() && s[w] == '`' {
            (lead.add(walk.0).add(seq![diag_cell(s, w + 1, LintKind::KeyIsRawValue)]), w + 1)
        } else {
            (lead.add(walk.0), w)
        }
    }
}

pub proof fn lemma_ck_bounds(s: Seq<char>, i: int, opts: Opts)
    requires
        0 <= i <= s.len(),
    ensures
        i <= ck_spec(s, i, opts).1 <= s.len(),
{
    let pseudo = i < s.len() && s[i] == '`';
    if pseudo {
        lemma_ck_walk_bounds(s, i + 1, opts);
    } else {
        lemma_ck_walk_bounds(s, i, opts);
    }
}

/// What the comment walk inside a heading consumes: each comment to its
/// line end, the whitespace after it included. Yields whether any
/// comment was seen, where the last one ended, and where scanning
/// resumes.
pub open spec fn hc_spec(s: Seq<char>, i: int, opts: Opts) -> (bool, int, int)
    decreases s.len() - i,
    when 0 <= i <= s.len()
    via hc_spec_dec
{
    if i < s.len() && is_comment_c(s[i], opts) {
        let le = crate::grammar::line_end(s, i + 1);
        let p2 = crate::grammar::ws_end(s, le);
        let rec = hc_spec(s, p2, opts);
        (true, if rec.0 {
            rec.1
        } else {
            le
        }, rec.2)
    } else {
        (false, 0, i)
    }
}

#[via_fn]
proof fn hc_spec_dec(s: Seq<char>, i: int, opts: Opts) {
    if i < s.len() && is_comment_c(s[i], opts) {
        crate::grammar::lemma_line_end(s, i + 1);
        crate::grammar::lemma_ws_end(s, crate::grammar::line_end(s, i + 1));
    }
}

/// Joins what the comment walk has already seen with what the rest of
/// it yields.
pub open spec fn hc_combine(seen0: bool, e0: int, rec: (bool, int, int)) -> (bool, int, int) {
    (seen0 || rec.0, if rec.0 {
        rec.1
    } else if seen0 {
        e0
    } else {
        0
    }, rec.2)
}

pub proof fn lemma_hc_bounds(s: Seq<char>, i: int, opts: Opts)
    requires
        0 <= i <= s.len(),
    ensures
        i <= hc_spec(s, i, opts).2 <= s.len(),
        hc_spec(s, i, opts).0 ==> i < hc_spec(s, i, opts).1 <= s.len(),
        hc_spec(s, i, opts).0 ==> hc_spec(s, i, opts).1 <= hc_spec(s, i, opts).2,
    decreases s.len() - i,
{
    if i < s.len() && is_comment_c(s[i], opts) {
        crate::grammar::lemma_line_end(s, i + 1);
        let le = crate::grammar::line_end(s, i + 1);
        crate::grammar::lemma_ws_end(s, le);
        lemma_hc_bounds(s, crate::grammar::ws_end(s, le), opts);
    }
}

/// What the linter says about one section heading whose `[` stands at
/// `i`, and where scanning resumes.
pub open spec fn hd_spec(s: Seq<char>, i: int, opts: Opts) -> (Seq<Diagnostic>, int) {
    let i1 = i + 1;
    let w1 = crate::grammar::ws_end(s, i1);
    let wb = cursor_at(s, w1) != cursor_at(s, i1);
    let before = hc_spec(s, w1, opts);
    let ck = ck_spec(s, before.2, opts);
    let ke = ck.1;
    let base: (int, int) = if before.0 {
        cursor_at(s, before.1)
    } else if wb {
        cursor_at(s, w1)
    } else {
        cursor_at(s, i1)
    };
    let word = base != cursor_at(s, ke);
    let w2 = crate::grammar::ws_end(s, ke);
    let base2: (int, int) = if word {
        cursor_at(s, ke)
    } else {
        base
    };
    let wa = base2 != cursor_at(s, w2);
    let after = hc_spec(s, w2, opts);
    let p3 = after.2;
    let fin: int = if p3 < s.len() {
        p3 + 1
    } else {
        p3
    };
    let closed = p3 < s.len() && s[p3] == ']';
    if !closed {
        (ck.0.add(seq![diag_cell(s, fin, LintKind::ExpectedHeadingEnd)]), fin)
    } else {
        let hb: int = if wb {
            w1
        } else {
            i1
        };
        let d1: Seq<Diagnostic> = if !word {
            if !before.0 {
                seq![diag_at(s, i1, fin, LintKind::HeadingOnlyComment)]
            } else {
                seq![diag_at(s, hb, fin, LintKind::HeadingEmpty)]
            }
        } else {
            Seq::empty()
        };
        let d2: Seq<Diagnostic> = if before.0 {
            seq![diag_at(s, hb, before.1, LintKind::CommentInsideHeadingBefore)]
        } else if wb && cursor_at(s, w1).0 != cursor_at(s, i1).0 {
            seq![diag_at(s, i1, w1, LintKind::ConfusingLineBreak)]
        } else {
            Seq::empty()
        };
        let d3: Seq<Diagnostic> = if after.0 {
            if wa {
                seq![diag_at(s, w2, after.1, LintKind::CommentInsideHeadingAfter)]
            } else if word {
                seq![diag_at(s, ke, after.1, LintKind::CommentInsideHeadingAfter)]
            } else {
                Seq::empty()
            }
        } else if wa && word && cursor_at(s, w2).0 != cursor_at(s, ke).0 {
            seq![diag_at(s, ke, w2, LintKind::ConfusingLineBreak)]
        } else {
            Seq::empty()
        };
        (ck.0.add(d1).add(d2).add(d3), fin)
    }
}

pub proof fn lemma_hd_bounds(s: Seq<char>, i: int, opts: Opts)
    requires
        0 <= i < s.len(),
    ensures
        i < hd_spec(s, i, opts).1 <= s.len(),
{
    crate::grammar::lemma_ws_end(s, i + 1);
    let w1 = crate::grammar::ws_end(s, i + 1);
    lemma_hc_bounds(s, w1, opts);
    let p2 = hc_spec(s, w1, opts).2;
    lemma_ck_bounds(s, p2, opts);
    let ke = ck_spec(s, p2, opts).1;
    crate::grammar::lemma_ws_end(s, ke);
    let w2 = crate::grammar::ws_end(s, ke);
    lemma_hc_bounds(s, w2, opts);
}

/// What the linter's scan of a raw value says from `p` on, carrying the
/// last key-run start and the first suspected statement: the reports,
/// where the scan stops, the surviving candidate, and whether a lone
/// closing backtick was found.
pub open spec fn lr_spec(
    s: Seq<char>,
    p: int,
    lk: Option<int>,
    det: Option<int>,
    opts: Opts,
) -> (Seq<Diagnostic>, int, Option<int>, bool)
    decreases s.len() - p,
    when 0 <= p <= s.len()
    via lr_spec_dec
{
    if p >= s.len() {
        (Seq::empty(), p, det, false)
    } else {
        let c = s[p];
        if c == '=' {
            let det2: Option<int> = if det is None && lk is Some {
                lk
            } else {
                det
            };
            lr_spec(s, p + 1, None, det2, opts)
        } else if c == '`' {
            if p + 1 < s.len() && s[p + 1] == '`' {
                lr_spec(s, p + 2, None, det, opts)
            } else {
                if p + 1 < s.len() && is_value_c(s[p + 1], opts) && !is_white(s[p + 1]) {
                    let rec = lr_spec(s, p + 2, None, det, opts);
                    (
                        seq![diag_cell(s, p + 1, LintKind::UnescapedBacktick)].add(rec.0),
                        rec.1,
                        rec.2,
                        rec.3,
                    )
                } else {
                    (Seq::empty(), p + 1, det, true)
                }
            }
        } else if is_key_c(c, opts) {
            let lk2: Option<int> = if lk is None {
                Some(p)
            } else {
                lk
            };
            lr_spec(s, p + 1, lk2, det, opts)
        } else if is_white(c) {
            let w = crate::grammar::ws_end(s, p);
            let keep = w < s.len() && s[w] == '=';
            lr_spec(s, w, if keep {
                lk
            } else {
                None
            }, det, opts)
        } else {
            lr_spec(s, p + 1, None, det, opts)
        }
    }
}

#[via_fn]
proof fn lr_spec_dec(s: Seq<char>, p: int, lk: Option<int>, det: Option<int>, opts: Opts) {
    if p < s.len() && is_white(s[p]) {
        crate::grammar::lemma_ws_end(s, p);
    }
}

pub proof fn lemma_lr_bounds(s: Seq<char>, p: int, lk: Option<int>, det: Option<int>, opts: Opts)
    requires
        0 <= p <= s.len(),
    ensures
        p <= lr_spec(s, p, lk, det, opts).1 <= s.len(),
    decreases s.len() - p,
{
    if p < s.len() {
        let c = s[p];
        if c == '=' {
            let det2: Option<int> = if det is None && lk is Some {
                lk
            } else {
                det
            };
            lemma_lr_bounds(s, p + 1, None, det2, opts);
        } else if c == '`' {
            if p + 1 < s.len() && s[p + 1] == '`' {
                lemma_lr_bounds(s, p + 2, None, det, opts);
            } else if p + 1 < s.len() && is_value_c(s[p + 1], opts) && !is_white(s[p + 1]) {
                lemma_lr_bounds(s, p + 2, None, det, opts);
            }
        } else if is_key_c(c, opts) {
            let lk2: Option<int> = if lk is None {
                Some(p)
            } else {
                lk
            };
            lemma_lr_bounds(s, p + 1, lk2, det, opts);
        } else if is_white(c) {
            crate::grammar::lemma_ws_end(s, p);
            let w = crate::grammar::ws_end(s, p);
            lemma_lr_bounds(s, w, if w < s.len() && s[w] == '=' {
                lk
            } else {
                None
            }, det, opts);
        } else {
            lemma_lr_bounds(s, p + 1, None, det, opts);
        }
    }
}

/// What the linter says about one key/value statement whose key starts
/// at `i`, and where scanning resumes.
pub open spec fn kv_spec(s: Seq<char>, i: int, opts: Opts) -> (Seq<Diagnostic>, int) {
    let ck = ck_spec(s, i, opts);
    let ke = ck.1;
    let m = crate::grammar::ws_end(s, ke);
    let d_eq: Seq<Diagnostic> = if m < s.len() && s[m] == '=' {
        Seq::empty()
    } else {
        seq![diag_cell(s, ke, LintKind::ExpectedEqualsSign)]
    };
    let m2: int = if m < s.len() {
        m + 1
    } else {
        m
    };
    let v = crate::grammar::ws_end(s, m2);
    if v < s.len() && s[v] == '`' {
        let lr = lr_spec(s, v + 1, None, None, opts);
        let tail: Seq<Diagnostic> = if !lr.3 {
            let und = seq![diag_at(s, v, lr.1, LintKind::UnterminatedRawValue)];
            match lr.2 {
                Some(dp) => und.add(seq![diag_cell(s, dp, LintKind::SuspectedStatement)]),
                None => und,
            }
        } else {
            Seq::empty()
        };
        (ck.0.add(d_eq).add(lr.0).add(tail), lr.1)
    } else {
        (ck.0.add(d_eq), crate::grammar::value_end(s, v, opts))
    }
}

pub proof fn lemma_kv_bounds(s: Seq<char>, i: int, opts: Opts)
    requires
        0 <= i < s.len(),
    ensures
        i < kv_spec(s, i, opts).1 <= s.len(),
{
    lemma_ck_bounds(s, i, opts);
    let ke = ck_spec(s, i, opts).1;
    crate::grammar::lemma_ws_end(s, ke);
    let m = crate::grammar::ws_end(s, ke);
    let m2: int = if m < s.len() {
        m + 1
    } else {
        m
    };
    crate::grammar::lemma_ws_end(s, m2);
    let v = crate::grammar::ws_end(s, m2);
    if v < s.len() && s[v] == '`' {
        lemma_lr_bounds(s, v + 1, None, None, opts);
    } else {
        crate::grammar::lemma_value_end(s, v, opts);
    }
}

/// Everything the linter reports from position `i` on, in order.
pub open spec fn lint_from(s: Seq<char>, i: int, opts: Opts) -> Seq<Diagnostic>
    decreases s.len() - i,
    when 0 <= i <= s.len()
    via lint_from_dec
{
    if i >= s.len() {
        Seq::empty()
    } else {
        let c = s[i];
        if is_white(c) {
            let r0 = vws_end(s, i);
            let run = wsrun_spec(s, r0, r0);
            run.0.add(lint_from(s, run.1, opts))
        } else if is_comment_c(c, opts) {
            lint_from(s, crate::grammar::cmt_end(s, i), opts)
        } else if c == ']' {
            seq![diag_cell(s, i + 1, LintKind::UnexpectedClosingBracket)].add(
                lint_from(s, i + 1, opts),
            )
        } else if c == '[' {
            let hd = hd_spec(s, i, opts);
            hd.0.add(lint_from(s, hd.1, opts))
        } else if is_key_c(c, opts) || c == '`' {
            let kv = kv_spec(s, i, opts);
            kv.0.add(lint_from(s, kv.1, opts))
        } else if c == '=' {
            seq![diag_cell(s, i, LintKind::ExpectedKeyBeforeEquals)].add(
                lint_from(s, i + 1, opts),
            )
        } else {
            seq![diag_cell(s, i, LintKind::ExpectedKeyAndEquals)].add(
                lint_from(s, crate::grammar::cmt_end(s, i), opts),
            )
        }
    }
}

#[via_fn]
proof fn lint_from_dec(s: Seq<char>, i: int, opts: Opts) {
    if 0 <= i < s.len() {
        let c = s[i];
        if is_white(c) {
            lemma_vws_end(s, i);
            let r0 = vws_end(s, i);
            lemma_wsrun_bounds(s, r0, r0);
        } else if is_comment_c(c, opts) {
            crate::grammar::lemma_line_end(s, i);
        } else if c == ']' {
        } else if c == '[' {
            lemma_hd_bounds(s, i, opts);
        } else if is_key_c(c, opts) || c == '`' {
            lemma_kv_bounds(s, i, opts);
        } else if c == '=' {
        } else {
            crate::grammar::lemma_line_end(s, i);
        }
    }
}

/// Everything the linter reports for the whole (already normalized)
/// text, in order.
pub open spec fn lint_spec(s: Seq<char>, opts: Opts) -> Seq<Diagnostic> {
    lint_from(s, 0, opts)
}

/// Appending a diagnostic that starts at or after everything emitted so
/// far, and not after the cursor, keeps the invariant.
proof fn lemma_push_diag(ds: Seq<Diagnostic>, d: Diagnostic, l: int, c: int)
    requires
        clean(ds) ==> starts_sorted(ds) && bounded_by(
            ds,
            d.start_line as int,
            d.start_col as int,
        ),
        pos_le(d.start_line as int, d.start_col as int, l, c),
    ensures
        lint_inv(ds.push(d), l, c),
{
    if clean(ds.push(d)) {
        assert forall|i: int| 0 <= i < ds.len() implies !mid_token(ds[i].kind) by {
            assert(ds.push(d)[i] == ds[i]);
        }
        assert(clean(ds));
        assert forall|i: int, j: int| 0 <= i < j < ds.push(d).len() implies pos_le(
            ds.push(d)[i].start_line as int,
            ds.push(d)[i].start_col as int,
            ds.push(d)[j].start_line as int,
            ds.push(d)[j].start_col as int,
        ) by {
            if j < ds.len() {
                assert(ds.push(d)[i] == ds[i]);
                assert(ds.push(d)[j] == ds[j]);
            } else {
                assert(ds.push(d)[i] == ds[i]);
                assert(ds.push(d)[j] == d);
            }
        }
        assert forall|i: int| 0 <= i < ds.push(d).len() implies pos_le(
            ds.push(d)[i].start_line as int,
            ds.push(d)[i].start_col as int,
            l,
            c,
        ) by {
            if i < ds.len() {
                assert(ds.push(d)[i] == ds[i]);
            } else {
                assert(ds.push(d)[i] == d);
            }
        }
    }
}

/// A well-formed report appended to well-formed reports leaves them
/// well-formed.
proof fn lemma_wf_push(ds: Seq<Diagnostic>, d: Diagnostic)
    requires
        diag_wf(d),
    ensures
        diags_wf(ds) ==> diags_wf(ds.push(d)),
{
    if diags_wf(ds) {
        assert forall|i: int| 0 <= i < ds.push(d).len() implies diag_wf(
            #[trigger] ds.push(d)[i],
        ) by {
            if i < ds.len() {
                assert(ds.push(d)[i] == ds[i]);
            } else {
                assert(ds.push(d)[i] == d);
            }
        }
    }
}

/// The invariant survives a pure cursor advance.
proof fn lemma_inv_cursor(ds: Seq<Diagnostic>, s: Seq<char>, i: int, j: int)
    requires
        0 <= i <= j,
        lint_inv(ds, cursor_at(s, i).0, cursor_at(s, i).1),
    ensures
        lint_inv(ds, cursor_at(s, j).0, cursor_at(s, j).1),
{
    lemma_cursor_monotone(s, i, j);
}

/// A sequence with a mid-token diagnostic stays unclean whatever is
/// appended.
proof fn lemma_unclean_push(ds: Seq<Diagnostic>, d: Diagnostic)
    requires
        !clean(ds) || mid_token(d.kind),
    ensures
        !clean(ds.push(d)),
{
    if clean(ds.push(d)) {
        if mid_token(d.kind) {
            assert(ds.push(d)[ds.len() as int] == d);
        } else {
            let i = choose|i: int| 0 <= i < ds.len() && mid_token(ds[i].kind);
            assert(ds.push(d)[i] == ds[i]);
        }
    }
}

/// The linter's whitespace skip: no diagnostics, the cursor moves to
/// the end of the whitespace.
fn skip_ws_l(iter: &mut Iter)
    requires
        old(iter).wf(),
    ensures
        final(iter).wf(),
        final(iter).text() == old(iter).text(),
        old(iter).at() <= final(iter).at() <= final(iter).text().len(),
        final(iter).at() == crate::grammar::ws_end(old(iter).text(), old(iter).at()),
        old(iter).at() < old(iter).text().len() && is_white(
            old(iter).text()[old(iter).at()],
        ) ==> final(iter).at() > old(iter).at(),
{
    let ghost s = iter.text();
    let ghost i0 = iter.at();
    proof {
        crate::grammar::lemma_ws_end(s, i0);
    }
    loop
        invariant
            iter.wf(),
            iter.text() == s,
            s == old(iter).text(),
            0 <= i0 <= iter.at() <= s.len(),
            i0 == old(iter).at(),
            crate::grammar::ws_end(s, iter.at()) == crate::grammar::ws_end(s, i0),
        ensures
            iter.wf(),
            iter.text() == s,
            iter.at() == crate::grammar::ws_end(s, i0),
        decreases s.len() - iter.at(),
    {
        let go = match iter.peek() {
            Some(c) => is_space(c),
            None => false,
        };
        if go {
            iter.next();
        } else {
            break;
        }
    }
}

/// The linter's comment skip: consumes to the end of the line, the
/// line break included.
fn skip_comment_l(iter: &mut Iter)
    requires
        old(iter).wf(),
    ensures
        final(iter).wf(),
        final(iter).text() == old(iter).text(),
        old(iter).at() <= final(iter).at() <= final(iter).text().len(),
        final(iter).at() == crate::grammar::cmt_end(old(iter).text(), old(iter).at()),
        old(iter).at() < old(iter).text().len() ==> final(iter).at() > old(iter).at(),
{
    let ghost s = iter.text();
    let ghost i0 = iter.at();
    proof {
        crate::grammar::lemma_line_end(s, i0);
    }
    loop
        invariant
            iter.wf(),
            iter.text() == s,
            s == old(iter).text(),
            0 <= i0 <= iter.at() <= s.len(),
            crate::grammar::line_end(s, iter.at()) == crate::grammar::line_end(s, i0),
        ensures
            iter.wf(),
            iter.text() == s,
            iter.at() == crate::grammar::line_end(s, i0),
        decreases s.len() - iter.at(),
    {
        let go = match iter.peek() {
            Some(c) => !is_vertical_ws(&c),
            None => false,
        };
        if go {
            iter.next();
        } else {
            break;
        }
    }
    // also skip over the line break
    iter.next();
}

/// The linter's key walk: flags a leading dot, every dot that ends a
/// key, and a key written as a raw value; always moves past the key.
/// What it reports and where it stops is exactly [`ck_spec`].
#[verifier::rlimit(100)]
#[verifier::spinoff_prover]
fn check_key_l(iter: &mut Iter, opts: &Opts, out: &mut Vec<Diagnostic>)
    requires
        old(iter).wf(),
        old(iter).text().len() + 1 < usize::MAX,
        lint_inv(old(out)@, old(iter).line as int, old(iter).col as int),
    ensures
        final(iter).wf(),
        final(iter).text() == old(iter).text(),
        old(iter).at() <= final(iter).at() <= final(iter).text().len(),
        old(iter).at() < old(iter).text().len() && (is_key_c(
            old(iter).text()[old(iter).at()],
            *opts,
        ) || old(iter).text()[old(iter).at()] == '`') ==> final(iter).at() > old(iter).at(),
        lint_inv(final(out)@, final(iter).line as int, final(iter).col as int),
        clean(final(out)@) ==> final(out)@ == old(out)@,
        final(out)@ == old(out)@ + ck_spec(old(iter).text(), old(iter).at(), *opts).0,
        final(iter).at() == ck_spec(old(iter).text(), old(iter).at(), *opts).1,
        diags_wf(old(out)@) ==> diags_wf(final(out)@),
{
    let ghost s = iter.text();
    let ghost i0 = iter.at();
    let ghost out_in = out@;
    let ghost ck = ck_spec(s, i0, *opts);
    let mut pseudo_raw = false;
    let mut pr_l: usize = 0;
    let mut pr_c: usize = 0;
    let ghost mut lead: Seq<Diagnostic> = Seq::empty();
    let first = iter.peek();
    match first {
        Some('.') => {
            let d = Diagnostic {
                start_line: iter.line,
                start_col: iter.col,
                end_line: iter.line,
                end_col: col_after(iter),
                kind: LintKind::KeyStartsWithDot,
            };
            proof {
                lemma_unclean_push(out@, d);
                crate::iter::lemma_cursor_bounds(s, i0);
                assert(d == diag_cell(s, i0, LintKind::KeyStartsWithDot));
                assert(diag_wf(d));
                lemma_wf_push(out@, d);
                lead = seq![d];
            }
            out.push(d);
        },
        Some('`') => {
            pseudo_raw = true;
            pr_l = iter.line;
            pr_c = iter.col;
            iter.next();
        },
        _ => {},
    }
    let ghost wstart = iter.at();
    let ghost mut wd: Seq<Diagnostic> = Seq::empty();
    proof {
        assert(out@ =~= out_in + lead);
        assert(wd + ck_walk(s, wstart, *opts).0 =~= ck_walk(s, wstart, *opts).0);
    }
    loop
        invariant
            iter.wf(),
            iter.text() == s,
            s == old(iter).text(),
            s.len() + 1 < usize::MAX,
            i0 <= iter.at() <= s.len(),
            i0 == old(iter).at(),
            lint_inv(out@, iter.line as int, iter.col as int),
            clean(out@) ==> out@ == old(out)@,
            i0 < s.len() && s[i0] == '`' ==> iter.at() > i0,
            0 <= wstart <= iter.at(),
            out@ == out_in + lead + wd,
            diags_wf(out_in) ==> diags_wf(out@),
            ck_walk(s, wstart, *opts) == (
                wd + ck_walk(s, iter.at(), *opts).0,
                ck_walk(s, iter.at(), *opts).1,
            ),
        ensures
            iter.wf(),
            iter.text() == s,
            i0 <= iter.at() <= s.len(),
            lint_inv(out@, iter.line as int, iter.col as int),
            clean(out@) ==> out@ == old(out)@,
            i0 < s.len() && (is_key_c(s[i0], *opts) || s[i0] == '`') ==> iter.at() > i0,
            out@ == out_in + lead + wd,
            diags_wf(out_in) ==> diags_wf(out@),
            ck_walk(s, wstart, *opts) == (wd, iter.at()),
        decreases s.len() - iter.at(),
    {
        let ghost p = iter.at();
        let pc = iter.peek();
        let c = match pc {
            Some(c) => c,
            None => {
                proof {
                    assert(ck_walk(s, p, *opts) == (Seq::<Diagnostic>::empty(), p));
                    assert(wd + Seq::<Diagnostic>::empty() =~= wd);
                }
                break;
            },
        };
        if !is_key(c, *opts) {
            proof {
                assert(ck_walk(s, p, *opts) == (Seq::<Diagnostic>::empty(), p));
                assert(wd + Seq::<Diagnostic>::empty() =~= wd);
            }
            break;
        }
        iter.next();
        let nk = match iter.peek() {
            Some(x) => !is_key(x, *opts),
            None => false,
        };
        if nk && c == '.' {
            let d = Diagnostic {
                start_line: iter.line,
                start_col: iter.col,
                end_line: iter.line,
                end_col: col_after(iter),
                kind: LintKind::KeyEndsWithDot,
            };
            proof {
                lemma_unclean_push(out@, d);
                crate::iter::lemma_cursor_bounds(s, p + 1);
                assert(d == diag_cell(s, p + 1, LintKind::KeyEndsWithDot));
                assert(diag_wf(d));
                lemma_wf_push(out@, d);
            }
            out.push(d);
            proof {
                let dd = seq![diag_cell(s, p + 1, LintKind::KeyEndsWithDot)];
                assert(ck_walk(s, p, *opts) == (
                    dd + ck_walk(s, p + 1, *opts).0,
                    ck_walk(s, p + 1, *opts).1,
                ));
                wd = wd + dd;
                assert(out@ =~= out_in + lead + wd);
                assert(wd + ck_walk(s, iter.at(), *opts).0 =~= (wd.drop_last() + dd)
                    + ck_walk(s, iter.at(), *opts).0);
                assert((wd.drop_last() + (dd + ck_walk(s, iter.at(), *opts).0)) =~= wd
                    + ck_walk(s, iter.at(), *opts).0);
                assert(ck_walk(s, wstart, *opts).0 =~= wd + ck_walk(s, iter.at(), *opts).0);
            }
        } else {
            proof {
                assert(ck_walk(s, p, *opts) == (
                    Seq::<Diagnostic>::empty() + ck_walk(s, p + 1, *opts).0,
                    ck_walk(s, p + 1, *opts).1,
                ));
                assert(Seq::<Diagnostic>::empty() + ck_walk(s, p + 1, *opts).0 =~= ck_walk(
                    s,
                    p + 1,
                    *opts,
                ).0);
            }
        }
    }
    let ghost w = iter.at();
    if pseudo_raw {
        let tick = match iter.peek() {
            Some(c) => c == '`',
            None => false,
        };
        if tick {
            iter.next();
        }
        let d = Diagnostic {
            start_line: pr_l,
            start_col: pr_c,
            end_line: iter.line,
            end_col: iter.col,
            kind: LintKind::KeyIsRawValue,
        };
        proof {
            lemma_unclean_push(out@, d);
            crate::iter::lemma_cursor_bounds(s, i0);
            crate::iter::lemma_cursor_bounds(s, iter.at());
            lemma_cursor_monotone(s, i0, iter.at());
            assert(d == diag_at(s, i0, iter.at(), LintKind::KeyIsRawValue));
            assert(diag_wf(d));
            lemma_wf_push(out@, d);
        }
        out.push(d);
        proof {
            assert(lead =~= Seq::<Diagnostic>::empty());
            assert(out@ =~= out_in + ck.0);
        }
    } else {
        let tick = match iter.peek() {
            Some(c) => c == '`',
            None => false,
        };
        if tick {
            iter.next();
            let d = Diagnostic {
                start_line: iter.line,
                start_col: iter.col,
                end_line: iter.line,
                end_col: col_after(iter),
                kind: LintKind::KeyIsRawValue,
            };
            proof {
                lemma_unclean_push(out@, d);
                crate::iter::lemma_cursor_bounds(s, w + 1);
                assert(d == diag_cell(s, w + 1, LintKind::KeyIsRawValue));
                assert(diag_wf(d));
                lemma_wf_push(out@, d);
            }
            out.push(d);
            proof {
                assert(out@ =~= out_in + ck.0);
            }
        } else {
            proof {
                assert(out@ =~= out_in + ck.0);
            }
        }
    }
}

/// The column to the right of the cursor; it stays representable/// The column to the right of the cursor; it stays representable
/// because the text leaves room for it.
fn col_after(iter: &Iter) -> (r: usize)
    requires
        iter.wf(),
        iter.text().len() + 1 < usize::MAX,
    ensures
        r == iter.col + 1,
{
    proof {
        crate::iter::lemma_cursor_bounds(iter.text(), iter.at());
    }
    iter.col + 1
}

/// A clean sequence with one more non-mid-token element stays clean
/// backwards: the prefix was clean and the element is not mid-token.
proof fn lemma_clean_prefix(ds: Seq<Diagnostic>, d: Diagnostic)
    ensures
        clean(ds.push(d)) ==> clean(ds) && !mid_token(d.kind),
{
    if clean(ds.push(d)) {
        assert forall|i: int| 0 <= i < ds.len() implies !mid_token(ds[i].kind) by {
            assert(ds.push(d)[i] == ds[i]);
        }
        assert(ds.push(d)[ds.len() as int] == d);
    }
}

/// Consumes comments and the whitespace after them, as long as one
/// starts at the cursor; reports nothing. Returns whether any comment
/// was consumed, and the position right after the last one, exactly as
/// [`hc_spec`] describes.
fn skip_heading_comments(iter: &mut Iter, opts: &Opts) -> (r: (bool, usize, usize))
    requires
        old(iter).wf(),
    ensures
        final(iter).wf(),
        final(iter).text() == old(iter).text(),
        old(iter).at() <= final(iter).at() <= final(iter).text().len(),
        ({
            let h = hc_spec(old(iter).text(), old(iter).at(), *opts);
            &&& final(iter).at() == h.2
            &&& r.0 == h.0
            &&& h.0 ==> 0 <= h.1 <= old(iter).text().len() && (r.1 as int, r.2 as int)
                == cursor_at(old(iter).text(), h.1)
        }),
{
    let ghost s = iter.text();
    let mut seen = false;
    let mut end_l: usize = 0;
    let mut end_c: usize = 0;
    let ghost mut end_idx: int = 0;
    let ghost i0 = iter.at();
    loop
        invariant
            iter.wf(),
            iter.text() == s,
            s == old(iter).text(),
            0 <= i0 <= iter.at() <= s.len(),
            i0 == old(iter).at(),
            hc_spec(s, i0, *opts) == hc_combine(seen, end_idx, hc_spec(s, iter.at(), *opts)),
            seen ==> 0 <= end_idx <= s.len() && (end_l as int, end_c as int) == cursor_at(
                s,
                end_idx,
            ),
        ensures
            iter.wf(),
            iter.text() == s,
            i0 <= iter.at() <= s.len(),
            iter.at() == hc_spec(s, i0, *opts).2,
            seen == hc_spec(s, i0, *opts).0,
            seen ==> 0 <= hc_spec(s, i0, *opts).1 <= s.len() && (end_l as int, end_c as int)
                == cursor_at(s, hc_spec(s, i0, *opts).1),
        decreases s.len() - iter.at(),
    {
        let ghost p = iter.at();
        let at_comment = match iter.peek() {
            Some(c) => is_comment(c, *opts),
            None => false,
        };
        if !at_comment {
            proof {
                assert(hc_spec(s, p, *opts) == (false, 0int, p));
            }
            break;
        }
        // skip over the comment symbol
        iter.next();
        let ghost j0 = iter.at();
        proof {
            crate::grammar::lemma_line_end(s, j0);
        }
        // skip to the end of the line
        loop
            invariant
                iter.wf(),
                iter.text() == s,
                0 <= j0 <= iter.at() <= s.len(),
                crate::grammar::line_end(s, iter.at()) == crate::grammar::line_end(s, j0),
            ensures
                iter.wf(),
                iter.text() == s,
                j0 <= iter.at() <= s.len(),
                iter.at() == crate::grammar::line_end(s, j0),
            decreases s.len() - iter.at(),
        {
            let go = match iter.peek() {
                Some(c) => !is_vertical_ws(&c),
                None => false,
            };
            if go {
                iter.next();
            } else {
                break;
            }
        }
        seen = true;
        end_l = iter.line;
        end_c = iter.col;
        proof {
            end_idx = iter.at();
        }
        // skip over any whitespace, the line break included
        skip_ws_l(iter);
        proof {
            assert(hc_spec(s, p, *opts) == (true, if hc_spec(s, iter.at(), *opts).0 {
                hc_spec(s, iter.at(), *opts).1
            } else {
                end_idx
            }, hc_spec(s, iter.at(), *opts).2));
        }
    }
    (seen, end_l, end_c)
}

/// Lints one section heading, the `[` standing at the cursor: tracks
/// leading and trailing whitespace and comments around the name, then
/// reports on what it saw once the heading closes. What it reports and
/// where it stops is exactly [`hd_spec`].
#[verifier::rlimit(100)]
#[verifier::spinoff_prover]
fn lint_heading(iter: &mut Iter, opts: &Opts, out: &mut Vec<Diagnostic>)
    requires
        old(iter).wf(),
        old(iter).text().len() + 1 < usize::MAX,
        old(iter).at() < old(iter).text().len(),
        lint_inv(old(out)@, old(iter).line as int, old(iter).col as int),
    ensures
        final(iter).wf(),
        final(iter).text() == old(iter).text(),
        old(iter).at() < final(iter).at() <= final(iter).text().len(),
        lint_inv(final(out)@, final(iter).line as int, final(iter).col as int),
        final(out)@ == old(out)@ + hd_spec(old(iter).text(), old(iter).at(), *opts).0,
        final(iter).at() == hd_spec(old(iter).text(), old(iter).at(), *opts).1,
        diags_wf(old(out)@) ==> diags_wf(final(out)@),
{
    let ghost s = iter.text();
    let ghost i_pre = iter.at();
    let ghost hd = hd_spec(s, i_pre, *opts);
    let pre_l = iter.line;
    let pre_c = iter.col;
    iter.next();  // consume [
    let ghost i_start = iter.at();
    let start_l = iter.line;
    let start_c = iter.col;
    let ghost out0 = out@;
    proof {
        lemma_cursor_monotone(s, i_pre, i_start);
    }
    skip_ws_l(iter);
    let ghost i_ws1 = iter.at();
    let ws1_l = iter.line;
    let ws1_c = iter.col;
    // the end of leading whitespace, which is also where a leading
    // comment would start
    let wb_present = !(start_l == ws1_l && start_c == ws1_c);
    proof {
        lemma_cursor_monotone(s, i_start, i_ws1);
        assert(wb_present == (cursor_at(s, i_ws1) != cursor_at(s, i_start)));
    }
    // leading comment(s); do not report on them yet, maybe the heading
    // is broken
    let cb = skip_heading_comments(iter, opts);
    let cb_present = cb.0;
    let cb_l = cb.1;
    let cb_c = cb.2;
    let ghost hcb = hc_spec(s, i_ws1, *opts);
    proof {
        lemma_hc_bounds(s, i_ws1, *opts);
    }
    // this must be the start of the actual section name
    let ghost i_ck = iter.at();
    proof {
        lemma_inv_cursor(out@, s, i_pre, i_ck);
    }
    check_key_l(iter, opts, out);
    let ghost ckd = ck_spec(s, i_ck, *opts).0;
    let ghost i_word = iter.at();
    let word_l = iter.line;
    let word_c = iter.col;
    proof {
        lemma_cursor_monotone(s, i_ws1, i_word);
    }
    let base_l = if cb_present {
        cb_l
    } else if wb_present {
        ws1_l
    } else {
        start_l
    };
    let base_c = if cb_present {
        cb_c
    } else if wb_present {
        ws1_c
    } else {
        start_c
    };
    let word_present = !(base_l == word_l && base_c == word_c);
    // trailing whitespace
    skip_ws_l(iter);
    let ghost i_wa = iter.at();
    let wa_l = iter.line;
    let wa_c = iter.col;
    proof {
        lemma_cursor_monotone(s, i_word, i_wa);
    }
    let base2_l = if word_present {
        word_l
    } else {
        base_l
    };
    let base2_c = if word_present {
        word_c
    } else {
        base_c
    };
    let wa_present = !(base2_l == wa_l && base2_c == wa_c);
    // trailing comment(s)
    let ca = skip_heading_comments(iter, opts);
    let ca_present = ca.0;
    let ca_l = ca.1;
    let ca_c = ca.2;
    let ghost hca = hc_spec(s, i_wa, *opts);
    proof {
        lemma_hc_bounds(s, i_wa, *opts);
    }
    let ghost i_end = iter.at();
    let closed = match iter.next() {
        Some(cc) => cc == ']',
        None => false,
    };
    let ghost i_fin = iter.at();
    let fin_l = iter.line;
    let fin_c = iter.col;
    let ghost outp = out@;
    proof {
        lemma_cursor_monotone(s, i_pre, i_start);
        lemma_cursor_monotone(s, i_wa, i_fin);
        lemma_cursor_monotone(s, i_start, i_fin);
        lemma_cursor_monotone(s, i_ws1, i_fin);
        lemma_cursor_monotone(s, i_word, i_fin);
        crate::iter::lemma_cursor_bounds(s, i_start);
        crate::iter::lemma_cursor_bounds(s, i_ws1);
        crate::iter::lemma_cursor_bounds(s, i_word);
        crate::iter::lemma_cursor_bounds(s, i_wa);
        crate::iter::lemma_cursor_bounds(s, i_fin);
        // the executable flags agree with the model's
        assert(word_present == (({
            let base: (int, int) = if hcb.0 {
                cursor_at(s, hcb.1)
            } else if wb_present {
                cursor_at(s, i_ws1)
            } else {
                cursor_at(s, i_start)
            };
            base
        }) != cursor_at(s, i_word)));
        assert(closed == (i_end < s.len() && s[i_end] == ']'));
        assert(i_fin == (if i_end < s.len() {
            i_end + 1
        } else {
            i_end
        }));
        // whatever already stands in the output began no later than the
        // heading did
        assert(clean(outp) ==> starts_sorted(outp) && bounded_by(
            outp,
            start_l as int,
            start_c as int,
        )) by {
            if clean(outp) {
                assert(outp == out0);
                assert(starts_sorted(out0));
                assert(bounded_by(out0, pre_l as int, pre_c as int));
            }
        }
    }
    if !closed {
        // the heading never closes before something that looks like a
        // new statement
        let d = Diagnostic {
            start_line: fin_l,
            start_col: fin_c,
            end_line: fin_l,
            end_col: col_after(iter),
            kind: LintKind::ExpectedHeadingEnd,
        };
        proof {
            lint_heading_push(outp, out@, d, start_l as int, start_c as int, fin_l as int,
                fin_c as int);
            assert(d == diag_cell(s, i_fin, LintKind::ExpectedHeadingEnd));
            assert(diag_wf(d));
            lemma_wf_push(out@, d);
        }
        out.push(d);
        proof {
            assert(out@ =~= old(out)@ + hd.0);
        }
        return ;
    }
    // the heading terminated properly; now report
    let ghost mut tail: Seq<Diagnostic> = Seq::empty();
    if !word_present {
        // a heading without a name; tell apart "only a comment" from
        // "nothing at all"
        if !cb_present {
            let d = Diagnostic {
                start_line: start_l,
                start_col: start_c,
                end_line: fin_l,
                end_col: fin_c,
                kind: LintKind::HeadingOnlyComment,
            };
            proof {
                lint_heading_push(outp, out@, d, start_l as int, start_c as int, fin_l as int,
                    fin_c as int);
                assert(d == diag_at(s, i_start, i_fin, LintKind::HeadingOnlyComment));
                assert(diag_wf(d));
                lemma_wf_push(out@, d);
                tail = tail + seq![d];
            }
            out.push(d);
        } else {
            let bl = if wb_present {
                ws1_l
            } else {
                start_l
            };
            let bc = if wb_present {
                ws1_c
            } else {
                start_c
            };
            let d = Diagnostic {
                start_line: bl,
                start_col: bc,
                end_line: fin_l,
                end_col: fin_c,
                kind: LintKind::HeadingEmpty,
            };
            proof {
                lint_heading_push(outp, out@, d, start_l as int, start_c as int, fin_l as int,
                    fin_c as int);
                assert(d == diag_at(s, if wb_present {
                    i_ws1
                } else {
                    i_start
                }, i_fin, LintKind::HeadingEmpty));
                lemma_cursor_monotone(s, i_ws1, i_fin);
                assert(diag_wf(d));
                lemma_wf_push(out@, d);
                tail = tail + seq![d];
            }
            out.push(d);
        }
    }
    proof {
        assert(out@ =~= outp + tail);
    }
    if cb_present {
        // maybe this was commented out by mistake
        let bl = if wb_present {
            ws1_l
        } else {
            start_l
        };
        let bc = if wb_present {
            ws1_c
        } else {
            start_c
        };
        let d = Diagnostic {
            start_line: bl,
            start_col: bc,
            end_line: cb_l,
            end_col: cb_c,
            kind: LintKind::CommentInsideHeadingBefore,
        };
        proof {
            lint_heading_push(outp, out@, d, start_l as int, start_c as int, fin_l as int,
                fin_c as int);
            assert(d == diag_at(s, if wb_present {
                i_ws1
            } else {
                i_start
            }, hcb.1, LintKind::CommentInsideHeadingBefore));
            crate::iter::lemma_cursor_bounds(s, hcb.1);
            lemma_cursor_monotone(s, i_ws1, hcb.1);
            lemma_cursor_monotone(s, i_start, i_ws1);
            assert(diag_wf(d));
            lemma_wf_push(out@, d);
            tail = tail + seq![d];
        }
        out.push(d);
    } else if wb_present && ws1_l != start_l {
        // there is a line break at the start of the section heading
        let d = Diagnostic {
            start_line: start_l,
            start_col: start_c,
            end_line: ws1_l,
            end_col: ws1_c,
            kind: LintKind::ConfusingLineBreak,
        };
        proof {
            lint_heading_push(outp, out@, d, start_l as int, start_c as int, fin_l as int,
                fin_c as int);
            assert(d == diag_at(s, i_start, i_ws1, LintKind::ConfusingLineBreak));
            lemma_cursor_monotone(s, i_start, i_ws1);
            assert(diag_wf(d));
            lemma_wf_push(out@, d);
            tail = tail + seq![d];
        }
        out.push(d);
    }
    proof {
        assert(out@ =~= outp + tail);
    }
    if ca_present {
        let bl = if wa_present {
            wa_l
        } else {
            word_l
        };
        let bc = if wa_present {
            wa_c
        } else {
            word_c
        };
        if wa_present || word_present {
            let d = Diagnostic {
                start_line: bl,
                start_col: bc,
                end_line: ca_l,
                end_col: ca_c,
                kind: LintKind::CommentInsideHeadingAfter,
            };
            proof {
                lint_heading_push(outp, out@, d, start_l as int, start_c as int, fin_l as int,
                    fin_c as int);
                assert(d == diag_at(s, if wa_present {
                    i_wa
                } else {
                    i_word
                }, hca.1, LintKind::CommentInsideHeadingAfter));
                crate::iter::lemma_cursor_bounds(s, hca.1);
                lemma_cursor_monotone(s, i_wa, hca.1);
                lemma_cursor_monotone(s, i_word, i_wa);
                assert(diag_wf(d));
                lemma_wf_push(out@, d);
                tail = tail + seq![d];
            }
            out.push(d);
        }
    } else if wa_present && word_present && wa_l != word_l {
        // there is a line break at the end of the section heading
        let d = Diagnostic {
            start_line: word_l,
            start_col: word_c,
            end_line: wa_l,
            end_col: wa_c,
            kind: LintKind::ConfusingLineBreak,
        };
        proof {
            lint_heading_push(outp, out@, d, start_l as int, start_c as int, fin_l as int,
                fin_c as int);
            assert(d == diag_at(s, i_word, i_wa, LintKind::ConfusingLineBreak));
            lemma_cursor_monotone(s, i_word, i_wa);
            assert(diag_wf(d));
            lemma_wf_push(out@, d);
            tail = tail + seq![d];
        }
        out.push(d);
    }
    proof {
        assert(out@ =~= outp + tail);
        assert(out@ =~= old(out)@ + hd.0);
    }
}

/// The reports on a closed heading all start between the heading's
/// first character and the cursor, so each may be appended to whatever
/// the heading has reported before.
proof fn lint_heading_push(
    outp: Seq<Diagnostic>,
    ds: Seq<Diagnostic>,
    d: Diagnostic,
    hl: int,
    hc: int,
    l: int,
    c: int,
)
    requires
        clean(outp) ==> bounded_by(outp, hl, hc),
        clean(ds) ==> starts_sorted(ds),
        outp.len() <= ds.len(),
        forall|i: int| 0 <= i < outp.len() ==> ds[i] == outp[i],
        forall|i: int|
            outp.len() <= i < ds.len() ==> pos_le(hl, hc, ds[i].start_line as int,
            ds[i].start_col as int) && pos_le(
                ds[i].start_line as int,
                ds[i].start_col as int,
                d.start_line as int,
                d.start_col as int,
            ) && !mid_token(ds[i].kind),
        pos_le(hl, hc, d.start_line as int, d.start_col as int),
        pos_le(d.start_line as int, d.start_col as int, l, c),
    ensures
        lint_inv(ds.push(d), l, c),
{
    if clean(ds) {
        assert forall|i: int| 0 <= i < outp.len() implies !mid_token(outp[i].kind) by {
            assert(ds[i] == outp[i]);
        }
        assert(clean(outp));
        assert forall|i: int| 0 <= i < ds.len() implies pos_le(
            ds[i].start_line as int,
            ds[i].start_col as int,
            d.start_line as int,
            d.start_col as int,
        ) by {
            if i < outp.len() {
                assert(ds[i] == outp[i]);
            }
        }
    }
    lemma_push_diag(ds, d, l, c);
}

/// Lints one key/value statement, the key's first character standing at
/// the cursor: checks the key, requires an `=`, and walks the value,
/// guessing where an unterminated raw value was probably meant to end.
/// What it reports and where it stops is exactly [`kv_spec`].
#[verifier::rlimit(100)]
#[verifier::spinoff_prover]
fn lint_pair(iter: &mut Iter, opts: &Opts, out: &mut Vec<Diagnostic>)
    requires
        old(iter).wf(),
        old(iter).text().len() + 1 < usize::MAX,
        old(iter).at() < old(iter).text().len(),
        is_key_c(old(iter).text()[old(iter).at()], *opts) || old(iter).text()[old(iter).at()]
            == '`',
        lint_inv(old(out)@, old(iter).line as int, old(iter).col as int),
    ensures
        final(iter).wf(),
        final(iter).text() == old(iter).text(),
        old(iter).at() < final(iter).at() <= final(iter).text().len(),
        lint_inv(final(out)@, final(iter).line as int, final(iter).col as int),
        final(out)@ == old(out)@ + kv_spec(old(iter).text(), old(iter).at(), *opts).0,
        final(iter).at() == kv_spec(old(iter).text(), old(iter).at(), *opts).1,
        diags_wf(old(out)@) ==> diags_wf(final(out)@),
{
    let ghost s = iter.text();
    let ghost i_pre = iter.at();
    let ghost kv = kv_spec(s, i_pre, *opts);
    let ghost out0 = out@;
    check_key_l(iter, opts, out);
    let ghost ckd = ck_spec(s, i_pre, *opts).0;
    let ghost i_ek = iter.at();
    let ek_l = iter.line;
    let ek_c = iter.col;
    proof {
        lemma_cursor_monotone(s, i_pre, i_ek);
        crate::iter::lemma_cursor_bounds(s, i_ek);
    }
    skip_ws_l(iter);
    let ghost i_q = iter.at();
    proof {
        lemma_cursor_monotone(s, i_ek, i_q);
        // the key walk leaves the output as it was, or already unclean
        assert(clean(out@) ==> starts_sorted(out@) && bounded_by(out@, ek_l as int, ek_c as int))
            by {
            if clean(out@) {
                assert(out@ == out0);
            }
        }
    }
    let at_eq = match iter.peek() {
        Some(cc) => cc == '=',
        None => false,
    };
    let ghost mut d_eq: Seq<Diagnostic> = Seq::empty();
    if !at_eq {
        let d = Diagnostic {
            start_line: ek_l,
            start_col: ek_c,
            end_line: ek_l,
            end_col: ek_c + 1,
            kind: LintKind::ExpectedEqualsSign,
        };
        proof {
            lemma_push_diag(out@, d, iter.line as int, iter.col as int);
            assert(d == diag_cell(s, i_ek, LintKind::ExpectedEqualsSign));
            assert(diag_wf(d));
            lemma_wf_push(out@, d);
            d_eq = seq![d];
        }
        out.push(d);
    }
    proof {
        assert(out@ =~= out0 + ckd + d_eq);
    }
    iter.next();  // skip over the equal sign
    let ghost i_m2 = iter.at();
    skip_ws_l(iter);
    let ghost i_v = iter.at();
    proof {
        lemma_inv_cursor(out@, s, i_q, i_v);
    }
    let raw = match iter.peek() {
        Some(cc) => cc == '`',
        None => false,
    };
    if raw {
        // raw value
        let ghost i_rs = iter.at();
        let rs_l = iter.line;
        let rs_c = iter.col;
        let ghost out_r = out@;
        iter.next();  // skip over the backtick
        proof {
            lemma_inv_cursor(out@, s, i_rs, iter.at());
        }
        // try to detect where a missing backtick could have been meant
        let mut closed_ok = false;
        let mut lk = false;
        let mut lk_l: usize = 0;
        let mut lk_c: usize = 0;
        let ghost mut i_lk: int = 0;
        let mut detected = false;
        let mut ds_l: usize = 0;
        let mut ds_c: usize = 0;
        let ghost mut i_ds: int = 0;
        let ghost mut lrd: Seq<Diagnostic> = Seq::empty();
        proof {
            assert(lrd + lr_spec(s, i_rs + 1, None, None, *opts).0 =~= lr_spec(
                s,
                i_rs + 1,
                None,
                None,
                *opts,
            ).0);
        }
        loop
            invariant_except_break
                !closed_ok,
                lr_spec(s, i_rs + 1, None, None, *opts) == (
                    lrd + lr_spec(s, iter.at(), if lk {
                        Some(i_lk)
                    } else {
                        None
                    }, if detected {
                        Some(i_ds)
                    } else {
                        None
                    }, *opts).0,
                    lr_spec(s, iter.at(), if lk {
                        Some(i_lk)
                    } else {
                        None
                    }, if detected {
                        Some(i_ds)
                    } else {
                        None
                    }, *opts).1,
                    lr_spec(s, iter.at(), if lk {
                        Some(i_lk)
                    } else {
                        None
                    }, if detected {
                        Some(i_ds)
                    } else {
                        None
                    }, *opts).2,
                    lr_spec(s, iter.at(), if lk {
                        Some(i_lk)
                    } else {
                        None
                    }, if detected {
                        Some(i_ds)
                    } else {
                        None
                    }, *opts).3,
                ),
            invariant
                iter.wf(),
                iter.text() == s,
                s.len() + 1 < usize::MAX,
                0 <= i_rs < iter.at() <= s.len(),
                (rs_l as int, rs_c as int) == cursor_at(s, i_rs),
                lk ==> i_rs <= i_lk < s.len() && i_lk <= iter.at() && (lk_l as int, lk_c as int)
                    == cursor_at(s, i_lk),
                detected ==> i_rs <= i_ds < s.len() && i_ds <= iter.at() && (
                ds_l as int,
                ds_c as int,
                ) == cursor_at(s, i_ds),
                clean(out@) ==> out@ == out_r,
                lint_inv(out@, iter.line as int, iter.col as int),
                out@ == out_r + lrd,
                diags_wf(out_r) ==> diags_wf(out@),
            ensures
                iter.wf(),
                iter.text() == s,
                i_rs < iter.at() <= s.len(),
                clean(out@) ==> out@ == out_r,
                lint_inv(out@, iter.line as int, iter.col as int),
                out@ == out_r + lrd,
                diags_wf(out_r) ==> diags_wf(out@),
                detected ==> i_rs <= i_ds < s.len() && (ds_l as int, ds_c as int) == cursor_at(
                    s,
                    i_ds,
                ),
                lr_spec(s, i_rs + 1, None, None, *opts) == (
                    lrd,
                    iter.at(),
                    if detected {
                        Some(i_ds)
                    } else {
                        None
                    },
                    closed_ok,
                ),
            decreases s.len() - iter.at(),
        {
            let ghost i_b = iter.at();
            let ghost lk0: Option<int> = if lk {
                Some(i_lk)
            } else {
                None
            };
            let ghost det0: Option<int> = if detected {
                Some(i_ds)
            } else {
                None
            };
            let c = match iter.peek() {
                Some(c) => c,
                None => {
                    proof {
                        assert(lr_spec(s, i_b, lk0, det0, *opts) == (
                            Seq::<Diagnostic>::empty(),
                            i_b,
                            det0,
                            false,
                        ));
                        assert(lrd + Seq::<Diagnostic>::empty() =~= lrd);
                    }
                    break;
                },
            };
            if c == '=' {
                // do not overwrite a previously detected statement
                if !detected && lk {
                    detected = true;
                    ds_l = lk_l;
                    ds_c = lk_c;
                    proof {
                        i_ds = i_lk;
                    }
                }
                lk = false;
                iter.next();
                proof {
                    lemma_inv_cursor(out@, s, i_b, iter.at());
                    assert(lr_spec(s, i_b, lk0, det0, *opts) == lr_spec(s, i_b + 1, None, if
                        detected {
                        Some(i_ds)
                    } else {
                        None
                    }, *opts));
                }
            } else if c == '`' {
                iter.next();
                lk = false;
                let esc = match iter.peek() {
                    Some(c3) => c3 == '`',
                    None => false,
                };
                if esc {
                    iter.next();
                    proof {
                        lemma_inv_cursor(out@, s, i_b, iter.at());
                        assert(lr_spec(s, i_b, lk0, det0, *opts) == lr_spec(
                            s,
                            i_b + 2,
                            None,
                            det0,
                            *opts,
                        ));
                    }
                } else {
                    let stray = match iter.peek() {
                        Some(c3) => is_value(c3, *opts) && !is_space(c3),
                        None => false,
                    };
                    if stray {
                        // not an escaped backtick, and not the end either
                        let d = Diagnostic {
                            start_line: iter.line,
                            start_col: iter.col,
                            end_line: iter.line,
                            end_col: col_after(iter),
                            kind: LintKind::UnescapedBacktick,
                        };
                        proof {
                            lemma_unclean_push(out@, d);
                            crate::iter::lemma_cursor_bounds(s, i_b + 1);
                            assert(d == diag_cell(s, i_b + 1, LintKind::UnescapedBacktick));
                            assert(diag_wf(d));
                            lemma_wf_push(out@, d);
                        }
                        out.push(d);
                        iter.next();
                        proof {
                            lemma_unclean_push(out_r.push(d), d);
                            assert(!clean(out@));
                            let dd = seq![diag_cell(s, i_b + 1, LintKind::UnescapedBacktick)];
                            assert(lr_spec(s, i_b, lk0, det0, *opts) == (
                                dd + lr_spec(s, i_b + 2, None, det0, *opts).0,
                                lr_spec(s, i_b + 2, None, det0, *opts).1,
                                lr_spec(s, i_b + 2, None, det0, *opts).2,
                                lr_spec(s, i_b + 2, None, det0, *opts).3,
                            ));
                            let lrd0 = lrd;
                            lrd = lrd + dd;
                            assert(out@ =~= out_r + lrd);
                            assert(lrd0 + (dd + lr_spec(s, i_b + 2, None, det0, *opts).0) =~= lrd
                                + lr_spec(s, i_b + 2, None, det0, *opts).0);
                        }
                    } else {
                        // this backtick terminates the raw value
                        closed_ok = true;
                        proof {
                            lemma_inv_cursor(out@, s, i_b, iter.at());
                            assert(lr_spec(s, i_b, lk0, det0, *opts) == (
                                Seq::<Diagnostic>::empty(),
                                i_b + 1,
                                det0,
                                true,
                            ));
                            assert(lrd + Seq::<Diagnostic>::empty() =~= lrd);
                        }
                        break;
                    }
                }
            } else if is_key(c, *opts) {
                // keep the start position of this key candidate
                if !lk {
                    lk = true;
                    lk_l = iter.line;
                    lk_c = iter.col;
                    proof {
                        i_lk = iter.at();
                    }
                }
                iter.next();
                proof {
                    lemma_inv_cursor(out@, s, i_b, iter.at());
                    assert(lr_spec(s, i_b, lk0, det0, *opts) == lr_spec(s, i_b + 1, if lk0
                        is None {
                        Some(i_b)
                    } else {
                        lk0
                    }, det0, *opts));
                }
            } else if is_space(c) {
                // this could be the whitespace between a key and its
                // equal sign
                skip_ws_l(iter);
                let nxt_eq = match iter.peek() {
                    Some(c3) => c3 == '=',
                    None => false,
                };
                if !nxt_eq {
                    // it was not
                    lk = false;
                }
                proof {
                    lemma_inv_cursor(out@, s, i_b, iter.at());
                    crate::grammar::lemma_ws_end(s, i_b);
                    assert(iter.at() == crate::grammar::ws_end(s, i_b));
                    assert(lr_spec(s, i_b, lk0, det0, *opts) == lr_spec(
                        s,
                        iter.at(),
                        if iter.at() < s.len() && s[iter.at()] == '=' {
                            lk0
                        } else {
                            None
                        },
                        det0,
                        *opts,
                    ));
                }
            } else {
                // this cannot be part of a key candidate
                lk = false;
                iter.next();
                proof {
                    lemma_inv_cursor(out@, s, i_b, iter.at());
                    assert(lr_spec(s, i_b, lk0, det0, *opts) == lr_spec(
                        s,
                        i_b + 1,
                        None,
                        det0,
                        *opts,
                    ));
                }
            }
        }
        let ghost lr = lr_spec(s, i_rs + 1, None, None, *opts);
        if !closed_ok {
            // the input ended without a terminating lone backtick
            let d = Diagnostic {
                start_line: rs_l,
                start_col: rs_c,
                end_line: iter.line,
                end_col: iter.col,
                kind: LintKind::UnterminatedRawValue,
            };
            let ghost out_u = out@;
            proof {
                lemma_cursor_monotone(s, i_rs, iter.at());
                crate::iter::lemma_cursor_bounds(s, i_rs);
                crate::iter::lemma_cursor_bounds(s, iter.at());
                assert(clean(out_u) ==> starts_sorted(out_u) && bounded_by(
                    out_u,
                    rs_l as int,
                    rs_c as int,
                )) by {
                    if clean(out_u) {
                        assert(out_u == out_r);
                    }
                }
                lemma_push_diag(out_u, d, iter.line as int, iter.col as int);
                assert(d == diag_at(s, i_rs, iter.at(), LintKind::UnterminatedRawValue));
                assert(diag_wf(d));
                lemma_wf_push(out@, d);
            }
            out.push(d);
            if detected {
                proof {
                    crate::iter::lemma_cursor_bounds(s, i_ds);
                }
                let d2 = Diagnostic {
                    start_line: ds_l,
                    start_col: ds_c,
                    end_line: ds_l,
                    end_col: ds_c + 1,
                    kind: LintKind::SuspectedStatement,
                };
                proof {
                    lemma_cursor_monotone(s, i_rs, i_ds);
                    lemma_cursor_monotone(s, i_ds, iter.at());
                    assert(clean(out@) ==> starts_sorted(out@) && bounded_by(
                        out@,
                        d2.start_line as int,
                        d2.start_col as int,
                    )) by {
                        if clean(out@) {
                            lemma_clean_prefix(out_u, d);
                            assert(out_u == out_r);
                            assert forall|i: int| 0 <= i < out@.len() implies pos_le(
                                out@[i].start_line as int,
                                out@[i].start_col as int,
                                d2.start_line as int,
                                d2.start_col as int,
                            ) by {
                                if i < out_u.len() {
                                    assert(out@[i] == out_u[i]);
                                } else {
                                    assert(out@[i] == d);
                                }
                            }
                            assert forall|i: int, j: int| 0 <= i < j < out@.len() implies pos_le(
                                out@[i].start_line as int,
                                out@[i].start_col as int,
                                out@[j].start_line as int,
                                out@[j].start_col as int,
                            ) by {
                                if j < out_u.len() {
                                    assert(out@[i] == out_u[i]);
                                    assert(out@[j] == out_u[j]);
                                } else {
                                    assert(out@[i] == out_u[i]);
                                    assert(out@[j] == d);
                                }
                            }
                        }
                    }
                    lemma_push_diag(out@, d2, iter.line as int, iter.col as int);
                    assert(d2 == diag_cell(s, i_ds, LintKind::SuspectedStatement));
                    assert(diag_wf(d2));
                    lemma_wf_push(out@, d2);
                }
                out.push(d2);
                proof {
                    assert(out@ =~= out0 + kv.0);
                }
            } else {
                proof {
                    assert(out@ =~= out0 + kv.0);
                }
            }
        } else {
            proof {
                assert(out@ =~= out0 + kv.0);
            }
        }
    } else {
        // non-raw value: runs to the line end or a comment
        let ghost i_nv = iter.at();
        proof {
            crate::grammar::lemma_value_end(s, i_nv, *opts);
            crate::grammar::lemma_ws_end(s, i_m2);
            lemma_ck_bounds(s, i_pre, *opts);
            assert(i_pre < i_nv);
        }
        loop
            invariant
                iter.wf(),
                iter.text() == s,
                0 <= i_nv <= iter.at() <= s.len(),
                crate::grammar::value_end(s, iter.at(), *opts) == crate::grammar::value_end(
                    s,
                    i_nv,
                    *opts,
                ),
            ensures
                iter.wf(),
                iter.text() == s,
                i_nv <= iter.at() <= s.len(),
                iter.at() == crate::grammar::value_end(s, i_nv, *opts),
            decreases s.len() - iter.at(),
        {
            let go = match iter.peek() {
                Some(c) => is_value(c, *opts),
                None => false,
            };
            if go {
                iter.next();
            } else {
                break;
            }
        }
        proof {
            lemma_inv_cursor(out@, s, i_v, iter.at());
            assert(out@ =~= out0 + kv.0);
        }
    }
}

/// Walks the whole input and reports everything the linter has to say,
/// in the order it was found.
///
/// The result is exactly what [`lint_spec`] assigns to the
/// CRLF-normalized text: which reports come, in which order, with which
/// kinds and ranges. The scan is proved to terminate on every finite
/// input, every range is well-formed, and, as long as no mid-token
/// diagnostic was emitted, the reported start positions never decrease.
#[verifier::rlimit(100)]
#[verifier::spinoff_prover]
pub fn lint(opts: &Opts, text: &str) -> (r: Vec<Diagnostic>)
    requires
        text@.len() + 1 < usize::MAX,
    ensures
        r@ == lint_spec(normalize_crlf(text@), *opts),
        diags_wf(r@),
        clean(r@) ==> starts_sorted(r@),
{
    // because the result need not be represented faithfully, it is
    // easier to replace CRLF with just LF than to deal with CRLF
    // everywhere
    let src = replace_crlf(&chars_of(text));
    let ghost s = src@;
    let mut iter = Iter::new(src);
    let mut out: Vec<Diagnostic> = Vec::new();
    proof {
        assert(out@ + lint_from(s, 0, *opts) =~= lint_from(s, 0, *opts));
    }
    loop
        invariant
            iter.wf(),
            iter.text() == s,
            s == normalize_crlf(text@),
            s.len() + 1 < usize::MAX,
            lint_inv(out@, iter.line as int, iter.col as int),
            diags_wf(out@),
            lint_spec(s, *opts) == out@ + lint_from(s, iter.at(), *opts),
        ensures
            out@ == lint_spec(s, *opts),
            diags_wf(out@),
            clean(out@) ==> starts_sorted(out@),
        decreases s.len() - iter.at(),
    {
        let ghost i_stmt = iter.at();
        let ghost out_stmt = out@;
        let c = match iter.peek() {
            Some(c) => c,
            None => {
                proof {
                    assert(lint_from(s, i_stmt, *opts) == Seq::<Diagnostic>::empty());
                    assert(out@ + Seq::<Diagnostic>::empty() =~= out@);
                }
                break;
            },
        };
        if is_space(c) {
            // don't report empty lines as unnecessary whitespace
            proof {
                lemma_vws_end(s, i_stmt);
            }
            loop
                invariant
                    iter.wf(),
                    iter.text() == s,
                    0 <= i_stmt <= iter.at() <= s.len(),
                    vws_end(s, iter.at()) == vws_end(s, i_stmt),
                ensures
                    iter.wf(),
                    iter.text() == s,
                    0 <= i_stmt <= iter.at() <= s.len(),
                    iter.at() == vws_end(s, i_stmt),
                    i_stmt < s.len() && is_vws(s[i_stmt]) ==> iter.at() > i_stmt,
                decreases s.len() - iter.at(),
            {
                let vw = match iter.peek() {
                    Some(c2) => is_vertical_ws(&c2),
                    None => false,
                };
                if vw {
                    iter.next();
                } else {
                    break;
                }
            }
            let ghost i_run = iter.at();
            let run_l = iter.line;
            let run_c = iter.col;
            let ghost mut wsd: Seq<Diagnostic> = Seq::empty();
            proof {
                lemma_cursor_monotone(s, i_stmt, i_run);
                assert(wsd + wsrun_spec(s, i_run, i_run).0 =~= wsrun_spec(s, i_run, i_run).0);
            }
            loop
                invariant_except_break
                    wsrun_spec(s, i_run, i_run) == (
                        wsd + wsrun_spec(s, i_run, iter.at()).0,
                        wsrun_spec(s, i_run, iter.at()).1,
                    ),
                invariant
                    iter.wf(),
                    iter.text() == s,
                    s.len() + 1 < usize::MAX,
                    0 <= i_run <= iter.at() <= s.len(),
                    (run_l as int, run_c as int) == cursor_at(s, i_run),
                    out@ == out_stmt + wsd,
                    diags_wf(out_stmt) ==> diags_wf(out@),
                    clean(out@) ==> starts_sorted(out@) && bounded_by(
                        out@,
                        run_l as int,
                        run_c as int,
                    ),
                ensures
                    iter.wf(),
                    iter.text() == s,
                    0 <= i_run <= iter.at() <= s.len(),
                    out@ == out_stmt + wsd,
                    diags_wf(out_stmt) ==> diags_wf(out@),
                    clean(out@) ==> starts_sorted(out@) && bounded_by(
                        out@,
                        run_l as int,
                        run_c as int,
                    ),
                    wsrun_spec(s, i_run, i_run) == (wsd, iter.at()),
                    i_run < s.len() && !is_vws(s[i_run]) && is_white(s[i_run]) ==> iter.at()
                        > i_run,
                decreases s.len() - iter.at(),
            {
                let ghost p = iter.at();
                let c2 = match iter.peek() {
                    Some(c2) => c2,
                    None => {
                        proof {
                            assert(wsrun_spec(s, i_run, p) == (Seq::<Diagnostic>::empty(), p));
                            assert(wsd + Seq::<Diagnostic>::empty() =~= wsd);
                        }
                        break;
                    },
                };
                if is_vertical_ws(&c2) {
                    iter.next();
                    let ends = match iter.peek() {
                        Some(c3) => !is_space(c3),
                        None => false,
                    };
                    if ends {
                        // this was the last line of the whitespace:
                        // show the end here
                        let d = Diagnostic {
                            start_line: run_l,
                            start_col: run_c,
                            end_line: iter.line,
                            end_col: iter.col,
                            kind: LintKind::UnnecessaryWhitespace,
                        };
                        proof {
                            lemma_cursor_monotone(s, i_run, iter.at());
                            lemma_push_diag(out@, d, run_l as int, run_c as int);
                            crate::iter::lemma_cursor_bounds(s, i_run);
                            crate::iter::lemma_cursor_bounds(s, iter.at());
                            assert(d == diag_at(s, i_run, p + 1, LintKind::UnnecessaryWhitespace));
                            assert(diag_wf(d));
                            lemma_wf_push(out@, d);
                        }
                        out.push(d);
                        proof {
                            let dd = seq![diag_at(s, i_run, p + 1, LintKind::UnnecessaryWhitespace)];
                            assert(wsrun_spec(s, i_run, p) == (
                                dd + wsrun_spec(s, i_run, p + 1).0,
                                wsrun_spec(s, i_run, p + 1).1,
                            ));
                            let wsd0 = wsd;
                            wsd = wsd + dd;
                            assert(out@ =~= out_stmt + wsd);
                            assert(wsd0 + (dd + wsrun_spec(s, i_run, p + 1).0) =~= wsd
                                + wsrun_spec(s, i_run, p + 1).0);
                        }
                    } else {
                        proof {
                            assert(wsrun_spec(s, i_run, p) == (
                                Seq::<Diagnostic>::empty() + wsrun_spec(s, i_run, p + 1).0,
                                wsrun_spec(s, i_run, p + 1).1,
                            ));
                            assert(Seq::<Diagnostic>::empty() + wsrun_spec(s, i_run, p + 1).0
                                =~= wsrun_spec(s, i_run, p + 1).0);
                        }
                    }
                } else if !is_space(c2) {
                    proof {
                        assert(wsrun_spec(s, i_run, p) == (Seq::<Diagnostic>::empty(), p));
                        assert(wsd + Seq::<Diagnostic>::empty() =~= wsd);
                    }
                    break;
                } else {
                    iter.next();
                }
            }
            proof {
                lemma_cursor_monotone(s, i_run, iter.at());
                assert(lint_from(s, i_stmt, *opts) == wsd + lint_from(s, iter.at(), *opts));
                assert((out_stmt + wsd) + lint_from(s, iter.at(), *opts) =~= out_stmt + (wsd
                    + lint_from(s, iter.at(), *opts)));
            }
        } else if is_comment(c, *opts) {
            skip_comment_l(&mut iter);
            proof {
                lemma_cursor_monotone(s, i_stmt, iter.at());
                assert(lint_from(s, i_stmt, *opts) == lint_from(s, iter.at(), *opts));
            }
        } else if c == ']' {
            iter.next();
            let d = Diagnostic {
                start_line: iter.line,
                start_col: iter.col,
                end_line: iter.line,
                end_col: col_after(&iter),
                kind: LintKind::UnexpectedClosingBracket,
            };
            proof {
                lemma_cursor_monotone(s, i_stmt, iter.at());
                lemma_push_diag(out@, d, iter.line as int, iter.col as int);
                crate::iter::lemma_cursor_bounds(s, i_stmt + 1);
                assert(d == diag_cell(s, i_stmt + 1, LintKind::UnexpectedClosingBracket));
                assert(diag_wf(d));
                lemma_wf_push(out@, d);
            }
            out.push(d);
            proof {
                let dd = seq![diag_cell(s, i_stmt + 1, LintKind::UnexpectedClosingBracket)];
                assert(lint_from(s, i_stmt, *opts) == dd + lint_from(s, iter.at(), *opts));
                assert((out_stmt + dd) + lint_from(s, iter.at(), *opts) =~= out_stmt + (dd
                    + lint_from(s, iter.at(), *opts)));
                assert(out@ =~= out_stmt + dd);
            }
        } else if c == '[' {
            lint_heading(&mut iter, opts, &mut out);
            proof {
                lemma_cursor_monotone(s, i_stmt, iter.at());
                assert(lint_from(s, i_stmt, *opts) == hd_spec(s, i_stmt, *opts).0 + lint_from(
                    s,
                    iter.at(),
                    *opts,
                ));
                assert((out_stmt + hd_spec(s, i_stmt, *opts).0) + lint_from(s, iter.at(), *opts)
                    =~= out_stmt + (hd_spec(s, i_stmt, *opts).0 + lint_from(
                    s,
                    iter.at(),
                    *opts,
                )));
            }
        } else if is_key(c, *opts) || c == '`' {
            // a backtick is not actually a key, but it looks like someone
            // tried to use a raw value for a key, so this path produces
            // the fitting diagnostics
            proof {
                if is_key_c(c, *opts) {
                    crate::grammar::lemma_key_char_plain(c, *opts);
                }
            }
            lint_pair(&mut iter, opts, &mut out);
            proof {
                lemma_cursor_monotone(s, i_stmt, iter.at());
                assert(lint_from(s, i_stmt, *opts) == kv_spec(s, i_stmt, *opts).0 + lint_from(
                    s,
                    iter.at(),
                    *opts,
                ));
                assert((out_stmt + kv_spec(s, i_stmt, *opts).0) + lint_from(s, iter.at(), *opts)
                    =~= out_stmt + (kv_spec(s, i_stmt, *opts).0 + lint_from(
                    s,
                    iter.at(),
                    *opts,
                )));
            }
        } else if c == '=' {
            let d = Diagnostic {
                start_line: iter.line,
                start_col: iter.col,
                end_line: iter.line,
                end_col: col_after(&iter),
                kind: LintKind::ExpectedKeyBeforeEquals,
            };
            proof {
                lemma_push_diag(out@, d, iter.line as int, iter.col as int);
                crate::iter::lemma_cursor_bounds(s, i_stmt);
                assert(d == diag_cell(s, i_stmt, LintKind::ExpectedKeyBeforeEquals));
                assert(diag_wf(d));
                lemma_wf_push(out@, d);
            }
            out.push(d);
            iter.next();
            proof {
                lemma_cursor_monotone(s, i_stmt, iter.at());
                let dd = seq![diag_cell(s, i_stmt, LintKind::ExpectedKeyBeforeEquals)];
                assert(lint_from(s, i_stmt, *opts) == dd + lint_from(s, iter.at(), *opts));
                assert((out_stmt + dd) + lint_from(s, iter.at(), *opts) =~= out_stmt + (dd
                    + lint_from(s, iter.at(), *opts)));
                assert(out@ =~= out_stmt + dd);
            }
        } else {
            let d = Diagnostic {
                start_line: iter.line,
                start_col: iter.col,
                end_line: iter.line,
                end_col: col_after(&iter),
                kind: LintKind::ExpectedKeyAndEquals,
            };
            proof {
                lemma_push_diag(out@, d, iter.line as int, iter.col as int);
                crate::iter::lemma_cursor_bounds(s, i_stmt);
                assert(d == diag_cell(s, i_stmt, LintKind::ExpectedKeyAndEquals));
                assert(diag_wf(d));
                lemma_wf_push(out@, d);
            }
            out.push(d);
            // so no diagnostic is produced for every character on this
            // line, pretend the rest of it is a comment
            skip_comment_l(&mut iter);
            proof {
                lemma_cursor_monotone(s, i_stmt, iter.at());
                let dd = seq![diag_cell(s, i_stmt, LintKind::ExpectedKeyAndEquals)];
                assert(lint_from(s, i_stmt, *opts) == dd + lint_from(s, iter.at(), *opts));
                assert((out_stmt + dd) + lint_from(s, iter.at(), *opts) =~= out_stmt + (dd
                    + lint_from(s, iter.at(), *opts)));
                assert(out@ =~= out_stmt + dd);
            }
        }
    }
    out
}

} // verus!
