//! The specification-level model of the CNI grammar: where each token
//! of a source text ends, what a statement at a given position means,
//! and what a whole document parses to.
//!
//! The executable parser is verified against these functions.

use vstd::prelude::*;

use crate::chars::Opts;
use crate::chars::is_comment_c;
use crate::chars::is_key_c;
use crate::chars::is_value_c;
use crate::chars::is_vws;
use crate::chars::is_white;
use crate::error::Kind;
use crate::iter::cursor_at;

verus! {

/// The first position at or after `i` that does not hold whitespace.
pub open spec fn ws_end(s: Seq<char>, i: int) -> int
    decreases s.len() - i,
    when 0 <= i <= s.len()
{
    if i == s.len() || !is_white(s[i]) {
        i
    } else {
        ws_end(s, i + 1)
    }
}

/// The first position at or after `i` that does not hold a key character.
pub open spec fn key_end(s: Seq<char>, i: int, opts: Opts) -> int
    decreases s.len() - i,
    when 0 <= i <= s.len()
{
    if i == s.len() || !is_key_c(s[i], opts) {
        i
    } else {
        key_end(s, i + 1, opts)
    }
}

/// The first position at or after `i` that holds vertical whitespace.
pub open spec fn line_end(s: Seq<char>, i: int) -> int
    decreases s.len() - i,
    when 0 <= i <= s.len()
{
    if i == s.len() || is_vws(s[i]) {
        i
    } else {
        line_end(s, i + 1)
    }
}

/// The first position at or after `i` that does not hold a bareword
/// value character.
pub open spec fn value_end(s: Seq<char>, i: int, opts: Opts) -> int
    decreases s.len() - i,
    when 0 <= i <= s.len()
{
    if i == s.len() || !is_value_c(s[i], opts) {
        i
    } else {
        value_end(s, i + 1, opts)
    }
}

/// The position after a comment whose comment character stands at `i`:
/// everything up to and including the line end is consumed.
pub open spec fn cmt_end(s: Seq<char>, i: int) -> int {
    if line_end(s, i) == s.len() {
        s.len() as int
    } else {
        line_end(s, i) + 1
    }
}

/// Where scanning resumes after a statement: trailing whitespace is
/// skipped, and a trailing comment is consumed together with its line
/// end.
pub open spec fn skip_comment_end(s: Seq<char>, i: int, opts: Opts) -> int {
    let w = ws_end(s, i);
    if w < s.len() && is_comment_c(s[w], opts) {
        cmt_end(s, w)
    } else {
        w
    }
}

/// The last position at or before `i` such that no whitespace stands
/// directly before it.
pub open spec fn ws_rend(s: Seq<char>, i: int) -> int
    decreases i,
    when 0 <= i <= s.len()
{
    if i == 0 || !is_white(s[i - 1]) {
        i
    } else {
        ws_rend(s, i - 1)
    }
}

/// The value sequence with leading and trailing whitespace removed.
pub open spec fn trim_spec(v: Seq<char>) -> Seq<char> {
    let a = ws_end(v, 0);
    let b = ws_rend(v, v.len() as int);
    if a <= b {
        v.subrange(a, b)
    } else {
        Seq::empty()
    }
}

/// Scans a raw value whose opening backtick stands directly before `i`.
/// Returns the value (with doubled backticks collapsed) and the position
/// after the closing backtick, or `None` if the input ends first.
pub open spec fn raw_scan(s: Seq<char>, i: int) -> Option<(Seq<char>, int)>
    decreases s.len() - i,
    when 0 <= i <= s.len()
{
    if i == s.len() {
        None
    } else if s[i] == '`' {
        if i + 1 < s.len() && s[i + 1] == '`' {
            match raw_scan(s, i + 2) {
                None => None,
                Some((v, e)) => Some((seq!['`'].add(v), e)),
            }
        } else {
            Some((Seq::empty(), i + 1))
        }
    } else {
        match raw_scan(s, i + 1) {
            None => None,
            Some((v, e)) => Some((seq![s[i]].add(v), e)),
        }
    }
}

/// A key is well-formed unless it starts or ends with a dot. The empty
/// key is well-formed; only the key/value grammar rejects it, and with
/// its own error kind.
pub open spec fn dot_ok(k: Seq<char>) -> bool {
    k.len() == 0 || (k[0] != '.' && k[k.len() - 1] != '.')
}

/// A key prefixed with the current section name, if there is one.
pub open spec fn qualify(sec: Seq<char>, key: Seq<char>) -> Seq<char> {
    if sec.len() == 0 {
        key
    } else {
        sec.add(seq!['.']).add(key)
    }
}

/// What the parser does at one statement boundary.
pub ghost enum Step {
    /// The input is exhausted.
    Done,
    /// The statement is malformed; parsing stops here.
    Fail { line: int, col: int, kind: Kind },
    /// A key/value pair, the position where scanning resumes, the
    /// section in force after the statement, and the cursor of the
    /// value's first character.
    Pair {
        key: Seq<char>,
        val: Seq<char>,
        end: int,
        section: Seq<char>,
        vline: int,
        vcol: int,
    },
}

/// The outcome of parsing one statement starting at position `i` with
/// current section `sec`: comments and blank lines are skipped, section
/// headers update the section, and the first key/value pair or error is
/// produced.
pub open spec fn step(s: Seq<char>, i: int, sec: Seq<char>, opts: Opts) -> Step
    decreases s.len() - i,
    when 0 <= i <= s.len()
    via step_dec
{
    let j = ws_end(s, i);
    if j == s.len() {
        Step::Done
    } else if is_comment_c(s[j], opts) {
        step(s, cmt_end(s, j), sec, opts)
    } else if s[j] == '[' {
        let p = cursor_at(s, j + 1);
        let k = ws_end(s, j + 1);
        if k == s.len() {
            Step::Fail { line: p.0, col: p.1, kind: Kind::ExpectedSectionEnd }
        } else {
            let ke = key_end(s, k, opts);
            let key = s.subrange(k, ke);
            if !dot_ok(key) {
                Step::Fail { line: p.0, col: p.1, kind: Kind::InvalidKey }
            } else {
                let m = ws_end(s, ke);
                if m == s.len() || s[m] != ']' {
                    // the missing bracket is reported at the column the
                    // header began
                    Step::Fail { line: p.0, col: p.1, kind: Kind::ExpectedSectionEnd }
                } else {
                    step(s, skip_comment_end(s, m + 1, opts), key, opts)
                }
            }
        }
    } else {
        let p = cursor_at(s, j);
        let ke = key_end(s, j, opts);
        let key = s.subrange(j, ke);
        if key.len() == 0 {
            Step::Fail { line: p.0, col: p.1, kind: Kind::ExpectedKey }
        } else if !dot_ok(key) {
            Step::Fail { line: p.0, col: p.1, kind: Kind::InvalidKey }
        } else {
            let q = cursor_at(s, ke);
            let m = ws_end(s, ke);
            if m == s.len() || s[m] != '=' {
                Step::Fail { line: q.0, col: q.1, kind: Kind::ExpectedEquals }
            } else {
                let v = ws_end(s, m + 1);
                let vp = cursor_at(s, v);
                if v < s.len() && s[v] == '`' {
                    match raw_scan(s, v + 1) {
                        None => Step::Fail { line: vp.0, col: vp.1, kind: Kind::UnterminatedRaw },
                        Some((val, e)) => Step::Pair {
                            key: qualify(sec, key),
                            val,
                            end: skip_comment_end(s, e, opts),
                            section: sec,
                            vline: vp.0,
                            vcol: vp.1,
                        },
                    }
                } else {
                    let ve = value_end(s, v, opts);
                    Step::Pair {
                        key: qualify(sec, key),
                        val: trim_spec(s.subrange(v, ve)),
                        end: skip_comment_end(s, ve, opts),
                        section: sec,
                        vline: vp.0,
                        vcol: vp.1,
                    }
                }
            }
        }
    }
}

#[via_fn]
proof fn step_dec(s: Seq<char>, i: int, sec: Seq<char>, opts: Opts) {
    lemma_ws_end(s, i);
    let j = ws_end(s, i);
    if j < s.len() {
        if is_comment_c(s[j], opts) {
            lemma_line_end(s, j);
        } else if s[j] == '[' {
            lemma_ws_end(s, j + 1);
            let k = ws_end(s, j + 1);
            if k < s.len() {
                lemma_key_end(s, k, opts);
                let ke = key_end(s, k, opts);
                lemma_ws_end(s, ke);
                let m = ws_end(s, ke);
                if m < s.len() && s[m] == ']' {
                    lemma_skip_comment_end(s, m + 1, opts);
                }
            }
        }
    }
}

/// A parse error together with the cursor it is attributed to.
pub ghost struct ErrAt {
    pub line: int,
    pub col: int,
    pub kind: Kind,
}

/// What a whole document means from position `i` on: the sequence of
/// qualified key/value pairs in source order, or the first error.
pub open spec fn parse_from(s: Seq<char>, i: int, sec: Seq<char>, opts: Opts) -> Result<
    Seq<(Seq<char>, Seq<char>)>,
    ErrAt,
>
    decreases s.len() - i,
    when 0 <= i <= s.len()
{
    match step(s, i, sec, opts) {
        Step::Done => Ok(Seq::empty()),
        Step::Fail { line, col, kind } => Err(ErrAt { line, col, kind }),
        Step::Pair { key, val, end, section, .. } => {
            // `step` always advances; the guard keeps the recursion
            // well-founded without appealing to that fact here.
            if i < end <= s.len() {
                match parse_from(s, end, section, opts) {
                    Ok(rest) => Ok(seq![(key, val)].add(rest)),
                    Err(e) => Err(e),
                }
            } else {
                Ok(Seq::empty())
            }
        },
    }
}

/// What a whole document means: the pairs or the first error, starting
/// at the top with no section in force.
pub open spec fn parse_doc(s: Seq<char>, opts: Opts) -> Result<
    Seq<(Seq<char>, Seq<char>)>,
    ErrAt,
> {
    parse_from(s, 0, Seq::empty(), opts)
}

// Characterization lemmas: each scanner stays inside the text, skips
// exactly the characters of its class, and stops at the first character
// outside it.
pub proof fn lemma_ws_end(s: Seq<char>, i: int)
    requires
        0 <= i <= s.len(),
    ensures
        i <= ws_end(s, i) <= s.len(),
        forall|j: int| i <= j < ws_end(s, i) ==> is_white(s[j]),
        ws_end(s, i) < s.len() ==> !is_white(s[ws_end(s, i)]),
    decreases s.len() - i,
{
    if i < s.len() && is_white(s[i]) {
        lemma_ws_end(s, i + 1);
    }
}

pub proof fn lemma_key_end(s: Seq<char>, i: int, opts: Opts)
    requires
        0 <= i <= s.len(),
    ensures
        i <= key_end(s, i, opts) <= s.len(),
        forall|j: int| i <= j < key_end(s, i, opts) ==> is_key_c(s[j], opts),
        key_end(s, i, opts) < s.len() ==> !is_key_c(s[key_end(s, i, opts)], opts),
    decreases s.len() - i,
{
    if i < s.len() && is_key_c(s[i], opts) {
        lemma_key_end(s, i + 1, opts);
    }
}

pub proof fn lemma_line_end(s: Seq<char>, i: int)
    requires
        0 <= i <= s.len(),
    ensures
        i <= line_end(s, i) <= s.len(),
        forall|j: int| i <= j < line_end(s, i) ==> !is_vws(s[j]),
        line_end(s, i) < s.len() ==> is_vws(s[line_end(s, i)]),
    decreases s.len() - i,
{
    if i < s.len() && !is_vws(s[i]) {
        lemma_line_end(s, i + 1);
    }
}

pub proof fn lemma_value_end(s: Seq<char>, i: int, opts: Opts)
    requires
        0 <= i <= s.len(),
    ensures
        i <= value_end(s, i, opts) <= s.len(),
        forall|j: int| i <= j < value_end(s, i, opts) ==> is_value_c(s[j], opts),
        value_end(s, i, opts) < s.len() ==> !is_value_c(s[value_end(s, i, opts)], opts),
    decreases s.len() - i,
{
    if i < s.len() && is_value_c(s[i], opts) {
        lemma_value_end(s, i + 1, opts);
    }
}

pub proof fn lemma_skip_comment_end(s: Seq<char>, i: int, opts: Opts)
    requires
        0 <= i <= s.len(),
    ensures
        i <= skip_comment_end(s, i, opts) <= s.len(),
{
    lemma_ws_end(s, i);
    let w = ws_end(s, i);
    if w < s.len() && is_comment_c(s[w], opts) {
        lemma_line_end(s, w);
    }
}

pub proof fn lemma_ws_rend(s: Seq<char>, i: int)
    requires
        0 <= i <= s.len(),
    ensures
        0 <= ws_rend(s, i) <= i,
        forall|j: int| ws_rend(s, i) <= j < i ==> is_white(s[j]),
        ws_rend(s, i) > 0 ==> !is_white(s[ws_rend(s, i) - 1]),
    decreases i,
{
    if i > 0 && is_white(s[i - 1]) {
        lemma_ws_rend(s, i - 1);
    }
}

pub proof fn lemma_raw_scan(s: Seq<char>, i: int)
    requires
        0 <= i <= s.len(),
    ensures
        match raw_scan(s, i) {
            Some((v, e)) => i < e <= s.len(),
            None => true,
        },
    decreases s.len() - i,
{
    if i < s.len() {
        if s[i] == '`' {
            if i + 1 < s.len() && s[i + 1] == '`' {
                lemma_raw_scan(s, i + 2);
            }
        } else {
            lemma_raw_scan(s, i + 1);
        }
    }
}

/// `step` always advances: a produced pair resumes strictly after where
/// the statement began, inside the text.
pub proof fn lemma_step_progress(s: Seq<char>, i: int, sec: Seq<char>, opts: Opts)
    requires
        0 <= i <= s.len(),
    ensures
        match step(s, i, sec, opts) {
            Step::Pair { end, .. } => i < end <= s.len(),
            _ => true,
        },
    decreases s.len() - i,
{
    lemma_ws_end(s, i);
    let j = ws_end(s, i);
    if j < s.len() {
        if is_comment_c(s[j], opts) {
            lemma_line_end(s, j);
            lemma_step_progress(s, cmt_end(s, j), sec, opts);
        } else if s[j] == '[' {
            lemma_ws_end(s, j + 1);
            let k = ws_end(s, j + 1);
            if k < s.len() {
                lemma_key_end(s, k, opts);
                let ke = key_end(s, k, opts);
                lemma_ws_end(s, ke);
                let m = ws_end(s, ke);
                if m < s.len() && s[m] == ']' {
                    lemma_skip_comment_end(s, m + 1, opts);
                    lemma_step_progress(s, skip_comment_end(s, m + 1, opts), s.subrange(k, ke), opts);
                }
            }
        } else {
            lemma_key_end(s, j, opts);
            let ke = key_end(s, j, opts);
            lemma_ws_end(s, ke);
            let m = ws_end(s, ke);
            if m < s.len() && s[m] == '=' {
                lemma_ws_end(s, m + 1);
                let v = ws_end(s, m + 1);
                if v < s.len() && s[v] == '`' {
                    lemma_raw_scan(s, v + 1);
                    if let Some((_, e)) = raw_scan(s, v + 1) {
                        lemma_skip_comment_end(s, e, opts);
                    }
                } else {
                    lemma_value_end(s, v, opts);
                    lemma_skip_comment_end(s, value_end(s, v, opts), opts);
                }
            }
        }
    }
}

/// The first position in `ps` that holds key `k`, or `ps.len()` if the
/// key does not occur.
pub open spec fn key_index(ps: Seq<(Seq<char>, Seq<char>)>, k: Seq<char>) -> int
    decreases ps.len(),
{
    if ps.len() == 0 {
        0
    } else if ps[0].0 == k {
        0
    } else {
        1 + key_index(ps.drop_first(), k)
    }
}

// Pinning lemmas: each scanner's end is determined by a character-class
// boundary.
pub proof fn lemma_ws_end_at(s: Seq<char>, i: int, j: int)
    requires
        0 <= i <= j <= s.len(),
        forall|k: int| i <= k < j ==> is_white(s[k]),
        j < s.len() ==> !is_white(s[j]),
    ensures
        ws_end(s, i) == j,
    decreases j - i,
{
    if i < j {
        lemma_ws_end_at(s, i + 1, j);
    }
}

pub proof fn lemma_key_end_at(s: Seq<char>, i: int, j: int, opts: Opts)
    requires
        0 <= i <= j <= s.len(),
        forall|k: int| i <= k < j ==> is_key_c(s[k], opts),
        j < s.len() ==> !is_key_c(s[j], opts),
    ensures
        key_end(s, i, opts) == j,
    decreases j - i,
{
    if i < j {
        lemma_key_end_at(s, i + 1, j, opts);
    }
}

pub proof fn lemma_value_end_at(s: Seq<char>, i: int, j: int, opts: Opts)
    requires
        0 <= i <= j <= s.len(),
        forall|k: int| i <= k < j ==> is_value_c(s[k], opts),
        j < s.len() ==> !is_value_c(s[j], opts),
    ensures
        value_end(s, i, opts) == j,
    decreases j - i,
{
    if i < j {
        lemma_value_end_at(s, i + 1, j, opts);
    }
}

pub proof fn lemma_line_end_at(s: Seq<char>, i: int, j: int)
    requires
        0 <= i <= j <= s.len(),
        forall|k: int| i <= k < j ==> !is_vws(s[k]),
        j < s.len() ==> is_vws(s[j]),
    ensures
        line_end(s, i) == j,
    decreases j - i,
{
    if i < j {
        lemma_line_end_at(s, i + 1, j);
    }
}

/// A key character is neither whitespace, nor a comment start, nor one
/// of the structural characters.
pub proof fn lemma_key_char_plain(c: char, opts: Opts)
    requires
        is_key_c(c, opts),
    ensures
        !is_white(c),
        !is_vws(c),
        !is_comment_c(c, opts),
        c != '[',
        c != ']',
        c != '=',
        c != '`',
{
}

/// A value that trimming leaves unchanged neither starts nor ends with
/// whitespace.
pub proof fn lemma_trim_fix(v: Seq<char>)
    requires
        trim_spec(v) == v,
        v.len() > 0,
    ensures
        !is_white(v[0]),
        !is_white(v[v.len() - 1]),
{
    lemma_ws_end(v, 0);
    lemma_ws_rend(v, v.len() as int);
    let a = ws_end(v, 0);
    let b = ws_rend(v, v.len() as int);
    if a <= b {
        assert(v.subrange(a, b).len() == b - a);
    }
    if is_white(v[0]) || is_white(v[v.len() - 1]) {
        assert(a > 0 || b < v.len());
        assert(trim_spec(v).len() < v.len());
    }
}

/// `key_index` names the first occurrence of a key, stays inside the
/// sequence, and nothing before it holds the key.
pub proof fn lemma_key_index(ps: Seq<(Seq<char>, Seq<char>)>, k: Seq<char>)
    ensures
        0 <= key_index(ps, k) <= ps.len(),
        key_index(ps, k) < ps.len() ==> ps[key_index(ps, k)].0 == k,
        forall|j: int| 0 <= j < key_index(ps, k) ==> ps[j].0 != k,
    decreases ps.len(),
{
    if ps.len() > 0 && ps[0].0 != k {
        lemma_key_index(ps.drop_first(), k);
        assert forall|j: int| 0 <= j < key_index(ps, k) implies ps[j].0 != k by {
            if j > 0 {
                assert(ps.drop_first()[j - 1] == ps[j]);
            }
        }
    }
}

/// Stores a pair under its key: overwrites the first entry with the same
/// key, or appends the pair if the key is new.
pub open spec fn upsert(
    acc: Seq<(Seq<char>, Seq<char>)>,
    p: (Seq<char>, Seq<char>),
) -> Seq<(Seq<char>, Seq<char>)> {
    let i = key_index(acc, p.0);
    if i < acc.len() {
        acc.update(i, p)
    } else {
        acc.push(p)
    }
}

/// Folds a pair sequence into a key/value store: keys keep the position
/// of their first occurrence, values are last-write-wins.
pub open spec fn fold_pairs(ps: Seq<(Seq<char>, Seq<char>)>) -> Seq<(Seq<char>, Seq<char>)>
    decreases ps.len(),
{
    if ps.len() == 0 {
        Seq::empty()
    } else {
        upsert(fold_pairs(ps.drop_last()), ps.last())
    }
}

/// The map a pair sequence denotes: later values overwrite earlier ones.
pub open spec fn map_of(ps: Seq<(Seq<char>, Seq<char>)>) -> Map<Seq<char>, Seq<char>>
    decreases ps.len(),
{
    if ps.len() == 0 {
        Map::empty()
    } else {
        map_of(ps.drop_last()).insert(ps.last().0, ps.last().1)
    }
}

} // verus!
