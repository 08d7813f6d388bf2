//! The laws that tie the serializer and the parser together: a
//! serialized key/value store parses back to the same store, and
//! serializing again reproduces the same text.
//!
//! The statements are restricted to stores the serializer can represent
//! faithfully: non-empty keys of key characters without dots, and
//! values that trimming leaves unchanged.

use vstd::prelude::*;

use crate::chars::Opts;
use crate::chars::is_key_c;
use crate::chars::is_value_c;
use crate::chars::is_vws;
use crate::chars::is_white;
use crate::format::emit;
use crate::linter::ck_spec;
use crate::linter::ck_walk;
use crate::linter::hc_spec;
use crate::linter::hd_spec;
use crate::linter::kv_spec;
use crate::linter::lint_from;
use crate::linter::lr_spec;
use crate::linter::lint_spec;
use crate::linter::vws_end;
use crate::linter::wsrun_spec;
use crate::format::escape_raw;
use crate::format::first_dot;
use crate::format::fmt_value;
use crate::format::has_dot;
use crate::format::needs_raw;
use crate::format::insert_pos;
use crate::format::key_cmp;
use crate::format::lex_cmp;
use crate::format::segs_cmp;
use crate::format::split_dots;
use crate::format::insert_sorted;
use crate::format::lemma_insert_pos;
use crate::format::sort_spec;
use crate::grammar::ErrAt;
use crate::grammar::Step;
use crate::grammar::fold_pairs;
use crate::grammar::key_index;
use crate::grammar::lemma_key_index;
use crate::grammar::map_of;
use crate::grammar::dot_ok;
use crate::grammar::lemma_key_char_plain;
use crate::iter::cursor_at;
use crate::grammar::lemma_key_end_at;
use crate::grammar::lemma_line_end_at;
use crate::grammar::lemma_trim_fix;
use crate::grammar::lemma_value_end_at;
use crate::grammar::lemma_ws_end_at;
use crate::grammar::parse_doc;
use crate::grammar::parse_from;
use crate::grammar::qualify;
use crate::grammar::raw_scan;
use crate::grammar::skip_comment_end;
use crate::grammar::step;
use crate::grammar::trim_spec;
use crate::grammar::ws_end;

verus! {

/// A key the serializer can reproduce: non-empty, of key characters,
/// and with no leading, trailing or doubled dot.
pub open spec fn valid_key(k: Seq<char>, opts: Opts) -> bool {
    &&& k.len() > 0
    &&& (forall|i: int| 0 <= i < k.len() ==> is_key_c(#[trigger] k[i], opts))
    &&& k[0] != '.'
    &&& k[k.len() - 1] != '.'
    &&& (forall|i: int| 0 <= i < k.len() - 1 ==> !(k[i] == '.' && #[trigger] k[i + 1] == '.'))
}

/// A pair the round trip covers: a reproducible key and a value
/// without surrounding whitespace.
pub open spec fn rt_pair(p: (Seq<char>, Seq<char>), opts: Opts) -> bool {
    &&& valid_key(p.0, opts)
    &&& trim_spec(p.1) == p.1
}

/// Every pair of the store is covered by the round trip.
pub open spec fn rt_pairs(ps: Seq<(Seq<char>, Seq<char>)>, opts: Opts) -> bool {
    forall|i: int| 0 <= i < ps.len() ==> rt_pair(#[trigger] ps[i], opts)
}

/// The characters one serialized line occupies: the key, ` = `, the
/// written value, and the line feed.
pub open spec fn line_len(p: (Seq<char>, Seq<char>)) -> int {
    p.0.len() + 4 + fmt_value(p.1).len() as int
}


/// Within a line, the column advances one cell per character.
proof fn lemma_cursor_line(s: Seq<char>, i: int, j: int)
    requires
        0 <= i <= j <= s.len(),
        forall|k: int| i <= k < j ==> !is_vws(#[trigger] s[k]),
    ensures
        cursor_at(s, j).0 == cursor_at(s, i).0,
        cursor_at(s, j).1 == cursor_at(s, i).1 + (j - i),
    decreases j - i,
{
    if i < j {
        lemma_cursor_line(s, i, j - 1);
    }
}

/// A run of key characters free of trailing dots walks cleanly: no
/// report, and the walk stops at the first non-key character.
proof fn lemma_ck_walk_clean(s: Seq<char>, i: int, j: int, opts: Opts)
    requires
        0 <= i <= j <= s.len(),
        forall|k: int| i <= k < j ==> is_key_c(#[trigger] s[k], opts),
        j < s.len() ==> !is_key_c(s[j], opts),
        i < j && j < s.len() ==> s[j - 1] != '.',
    ensures
        ck_walk(s, i, opts) == (Seq::<crate::linter::Diagnostic>::empty(), j),
    decreases j - i,
{
    if i == j {
    } else {
        lemma_ck_walk_clean(s, i + 1, j, opts);
        if i + 1 < s.len() && !is_key_c(s[i + 1], opts) && s[i] == '.' {
            assert(i + 1 == j);
        }
        assert(Seq::<crate::linter::Diagnostic>::empty().add(
            Seq::<crate::linter::Diagnostic>::empty(),
        ) =~= Seq::<crate::linter::Diagnostic>::empty());
    }
}

/// A well-formed key checks cleanly: no report, and the scan stops at
/// the first non-key character.
proof fn lemma_ck_clean(s: Seq<char>, i: int, j: int, opts: Opts)
    requires
        0 <= i < j <= s.len(),
        forall|k: int| i <= k < j ==> is_key_c(#[trigger] s[k], opts),
        j < s.len() ==> !is_key_c(s[j], opts) && s[j] != '`',
        s[i] != '.',
        j < s.len() ==> s[j - 1] != '.',
    ensures
        ck_spec(s, i, opts) == (Seq::<crate::linter::Diagnostic>::empty(), j),
{
    lemma_key_char_plain(s[i], opts);
    lemma_ck_walk_clean(s, i, j, opts);
    assert(Seq::<crate::linter::Diagnostic>::empty().add(
        Seq::<crate::linter::Diagnostic>::empty(),
    ) =~= Seq::<crate::linter::Diagnostic>::empty());
}

/// A line feed followed by the next statement (or the end of input)
/// passes the whitespace dispatch without a report.
proof fn lemma_lint_nl(s: Seq<char>, j: int, opts: Opts)
    requires
        0 <= j < s.len(),
        s[j] == '\n',
        j + 1 < s.len() ==> !is_white(s[j + 1]),
        j + 1 < s.len() ==> !is_vws(s[j + 1]),
    ensures
        lint_from(s, j, opts) == lint_from(s, j + 1, opts),
{
    assert(vws_end(s, j) == j + 1) by {
        if j + 1 < s.len() {
            assert(vws_end(s, j + 1) == j + 1);
        } else {
            assert(vws_end(s, j + 1) == j + 1);
        }
    }
    assert(wsrun_spec(s, j + 1, j + 1) == (Seq::<crate::linter::Diagnostic>::empty(), j + 1));
    assert(Seq::<crate::linter::Diagnostic>::empty().add(lint_from(s, j + 1, opts)) =~= lint_from(
        s,
        j + 1,
        opts,
    ));
}

/// Scanning an escaped value behind its opening backtick finds exactly
/// the original value and stops after the closing backtick.
proof fn lemma_raw_scan_exact(s: Seq<char>, i: int, v: Seq<char>)
    requires
        0 <= i,
        i + escape_raw(v).len() + 1 <= s.len(),
        forall|t: int| 0 <= t < escape_raw(v).len() ==> s[i + t] == escape_raw(v)[t],
        s[i + escape_raw(v).len()] == '`',
        i + escape_raw(v).len() + 1 < s.len() ==> s[i + escape_raw(v).len() + 1] != '`',
    ensures
        raw_scan(s, i) == Some((v, i + escape_raw(v).len() + 1)),
    decreases v.len(),
{
    let e = escape_raw(v);
    if v.len() == 0 {
        assert(e.len() == 0);
        assert(s[i] == '`');
        assert(raw_scan(s, i) == Some((Seq::<char>::empty(), i + 1)));
    } else {
        let c = v[0];
        let v2 = v.drop_first();
        let e2 = escape_raw(v2);
        if c == '`' {
            assert(e == seq!['`', '`'].add(e2));
            assert(s[i] == e[0] && e[0] == '`');
            assert(s[i + 1] == e[1] && e[1] == '`');
            assert forall|t: int| 0 <= t < e2.len() implies s[i + 2 + t] == e2[t] by {
                assert(e[t + 2] == e2[t]);
            }
            lemma_raw_scan_exact(s, i + 2, v2);
            assert(raw_scan(s, i) == Some((seq!['`'].add(v2), i + 2 + e2.len() + 1)));
            assert(seq!['`'].add(v2) =~= v);
        } else {
            assert(e == seq![c].add(e2));
            assert(s[i] == e[0] && e[0] == c);
            assert forall|t: int| 0 <= t < e2.len() implies s[i + 1 + t] == e2[t] by {
                assert(e[t + 1] == e2[t]);
            }
            lemma_raw_scan_exact(s, i + 1, v2);
            assert(raw_scan(s, i) == Some((seq![c].add(v2), i + 1 + e2.len() + 1)));
            assert(seq![c].add(v2) =~= v);
        }
    }
}

/// At the start of a serialized `key = value` line, the parser
/// produces the written pair, qualified with the current section, and
/// resumes at the next line. `kt` is the key text as written, which
/// under a section is the key without its section prefix.
#[verifier::rlimit(100)]
#[verifier::spinoff_prover]
proof fn lemma_step_kv(
    s: Seq<char>,
    i: int,
    kt: Seq<char>,
    v: Seq<char>,
    sec: Seq<char>,
    rest: Seq<char>,
    opts: Opts,
)
    requires
        0 <= i <= s.len(),
        kt.len() > 0,
        forall|t: int| 0 <= t < kt.len() ==> is_key_c(#[trigger] kt[t], opts),
        dot_ok(kt),
        trim_spec(v) == v,
        s.skip(i) == kt.add(seq![' ', '=', ' ']).add(fmt_value(v)).add(seq!['\n']).add(rest),
        rest.len() > 0 ==> (is_key_c(rest[0], opts) || rest[0] == '['),
    ensures
        step(s, i, sec, opts) == (Step::Pair {
            key: qualify(sec, kt),
            val: v,
            end: i + kt.len() + 4 + fmt_value(v).len(),
            section: sec,
            vline: step(s, i, sec, opts)->vline,
            vcol: step(s, i, sec, opts)->vcol,
        }),
        i + kt.len() + 4 + fmt_value(v).len() <= s.len(),
        s.skip(i + kt.len() + 4 + fmt_value(v).len()) == rest,
{
    let k = kt;
    let fv = fmt_value(v);
    let kl = k.len() as int;
    let fl = fv.len() as int;
    let m3 = seq![' ', '=', ' '];
    let nl = seq!['\n'];
    let a1 = k.add(m3);
    let a2 = a1.add(fv);
    let a3 = a2.add(nl);
    let em = a3.add(rest);
    assert(s.skip(i) == em);
    let ll = kl + 4 + fl;
    assert(a3.len() == ll);
    assert(em.len() == ll + rest.len());
    assert(i + ll <= s.len());
    assert forall|t: int| 0 <= t < em.len() implies s[i + t] == em[t] by {
        assert(s.skip(i)[t] == s[i + t]);
    }
    assert forall|t: int| i <= t < i + kl implies s[t] == k[t - i] by {
        assert(em[t - i] == a3[t - i]);
        assert(a3[t - i] == a2[t - i]);
        assert(a2[t - i] == a1[t - i]);
        assert(a1[t - i] == k[t - i]);
    }
    assert(s[i + kl] == ' ') by {
        assert(em[kl] == a3[kl]);
        assert(a3[kl] == a2[kl]);
        assert(a2[kl] == a1[kl]);
        assert(a1[kl] == m3[0]);
    }
    assert(s[i + kl + 1] == '=') by {
        assert(em[kl + 1] == a3[kl + 1]);
        assert(a3[kl + 1] == a2[kl + 1]);
        assert(a2[kl + 1] == a1[kl + 1]);
        assert(a1[kl + 1] == m3[1]);
    }
    assert(s[i + kl + 2] == ' ') by {
        assert(em[kl + 2] == a3[kl + 2]);
        assert(a3[kl + 2] == a2[kl + 2]);
        assert(a2[kl + 2] == a1[kl + 2]);
        assert(a1[kl + 2] == m3[2]);
    }
    assert forall|t: int| 0 <= t < fl implies s[i + kl + 3 + t] == fv[t] by {
        assert(em[kl + 3 + t] == a3[kl + 3 + t]);
        assert(a3[kl + 3 + t] == a2[kl + 3 + t]);
        assert(a2[kl + 3 + t] == fv[t]);
    }
    assert(s[i + kl + 3 + fl] == '\n') by {
        assert(em[kl + 3 + fl] == a3[kl + 3 + fl]);
        assert(a3[kl + 3 + fl] == nl[0]);
    }
    assert forall|t: int| 0 <= t < rest.len() implies s[i + ll + t] == rest[t] by {
        assert(em[ll + t] == rest[t]);
    }
    assert(s.skip(i + ll) =~= rest);

    assert forall|t: int| i <= t < i + kl implies is_key_c(#[trigger] s[t], opts) by {
        assert(s[t] == k[t - i]);
    }
    lemma_key_char_plain(k[0], opts);
    assert(s[i] == k[0]);
    // the statement starts right at the key
    lemma_ws_end_at(s, i, i);
    // the key ends at the space before the equals sign
    assert(!is_key_c(' ', opts)) by {
        assert(is_white(' '));
    }
    lemma_key_end_at(s, i, i + kl, opts);
    assert(s.subrange(i, i + kl) =~= k);
    // one space, then the equals sign
    lemma_ws_end_at(s, i + kl, i + kl + 1);
    // one space, then the value
    let vs = i + kl + 3;
    if v.len() == 0 {
        // the empty value is written as a `#empty` comment
        assert(fv == seq!['#', 'e', 'm', 'p', 't', 'y']);
        assert(s[vs] == '#');
        lemma_ws_end_at(s, i + kl + 2, vs);
        lemma_value_end_at(s, vs, vs, opts);
        assert(trim_spec(s.subrange(vs, vs)) =~= v) by {
            assert(s.subrange(vs, vs).len() == 0);
        }
        // the rest of the written value is consumed as a comment
        assert forall|t: int| vs <= t < vs + 6 implies !is_vws(#[trigger] s[t]) by {
            assert(s[t] == fv[t - vs - 1 + 1]);
        }
        lemma_line_end_at(s, vs, vs + 6);
        assert(skip_comment_end(s, vs, opts) == i + ll);
    } else if needs_raw(v) {
        // the value is written raw; scanning it restores the original
        assert(fv == seq!['`'].add(escape_raw(v)).add(seq!['`']));
        let el = escape_raw(v).len() as int;
        assert(fl == el + 2);
        assert(fv[0] == '`') by {
            assert(fv[0] == seq!['`'].add(escape_raw(v))[0]);
        }
        assert(s[i + kl + 3 + 0] == fv[0]);
        assert(s[vs] == '`');
        lemma_ws_end_at(s, i + kl + 2, vs);
        assert forall|t: int| 0 <= t < el implies s[vs + 1 + t] == escape_raw(v)[t] by {
            assert(fv[1 + t] == escape_raw(v)[t]);
        }
        assert(s[vs + 1 + el] == '`') by {
            assert(fv[1 + el] == '`');
        }
        assert(s[vs + 1 + el + 1] == '\n');
        lemma_raw_scan_exact(s, vs + 1, v);
        assert(raw_scan(s, vs + 1) == Some((v, i + kl + 3 + fl)));
        // the line feed after the closing backtick ends the statement
        lemma_skip_nl(s, i + kl + 3 + fl, rest, opts);
    } else {
        // a bareword: the value stands as it is and ends at the line
        // feed
        assert(fv == v);
        lemma_trim_fix(v);
        assert(s[vs] == v[0]);
        lemma_ws_end_at(s, i + kl + 2, vs);
        assert(s[vs] != '`');
        assert forall|t: int| vs <= t < vs + fl implies is_value_c(#[trigger] s[t], opts) by {
            let c = s[t];
            assert(c == v[t - vs]);
            assert(!(c == '`' || is_vws(c) || c == '#' || c == ';'));
        }
        lemma_value_end_at(s, vs, vs + fl, opts);
        assert(s.subrange(vs, vs + fl) =~= v);
        assert(trim_spec(v) == v);
        lemma_skip_nl(s, vs + fl, rest, opts);
    }
}

/// After a line feed that ends a serialized line, scanning resumes at
/// the start of the next statement, which opens with a key character
/// or a section bracket.
proof fn lemma_skip_nl(s: Seq<char>, j: int, rest: Seq<char>, opts: Opts)
    requires
        0 <= j < s.len(),
        s[j] == '\n',
        j + 1 + rest.len() == s.len(),
        forall|t: int| 0 <= t < rest.len() ==> s[j + 1 + t] == rest[t],
        rest.len() > 0 ==> (is_key_c(rest[0], opts) || rest[0] == '['),
    ensures
        skip_comment_end(s, j, opts) == j + 1,
{
    if rest.len() == 0 {
        lemma_ws_end_at(s, j, j + 1);
    } else {
        assert(s[j + 1] == rest[0]);
        if is_key_c(rest[0], opts) {
            lemma_key_char_plain(rest[0], opts);
        }
        lemma_ws_end_at(s, j, j + 1);
    }
}

/// A reproducible dotted key splits at its first dot into a
/// reproducible dotless section name and a reproducible remainder, and
/// is rebuilt from them.
proof fn lemma_split_key(k: Seq<char>, opts: Opts)
    requires
        valid_key(k, opts),
        has_dot(k),
    ensures
        1 <= first_dot(k) < k.len() - 1,
        valid_key(k.subrange(0, first_dot(k)), opts),
        !has_dot(k.subrange(0, first_dot(k))),
        valid_key(k.skip(first_dot(k) + 1), opts),
        qualify(k.subrange(0, first_dot(k)), k.skip(first_dot(k) + 1)) == k,
{
    crate::format::lemma_first_dot(k);
    let d = first_dot(k);
    assert(d < k.len()) by {
        if d == k.len() {
            let w = choose|w: int| 0 <= w < k.len() && k[w] == '.';
            assert(k[w] != '.');
        }
    }
    assert(k[d] == '.');
    assert(d >= 1);
    assert(d < k.len() - 1) by {
        if d == k.len() - 1 {
            assert(k[k.len() - 1] == '.');
        }
    }
    let seg = k.subrange(0, d);
    let rest = k.skip(d + 1);
    assert(seg.len() == d);
    assert forall|t: int| 0 <= t < seg.len() implies is_key_c(#[trigger] seg[t], opts) by {
        assert(seg[t] == k[t]);
    }
    assert(!has_dot(seg)) by {
        if has_dot(seg) {
            let w = choose|w: int| 0 <= w < seg.len() && seg[w] == '.';
            assert(k[w] == '.');
        }
    }
    assert(seg[0] == k[0]);
    assert(seg[seg.len() - 1] == k[d - 1]);
    assert(k[d - 1] != '.');
    assert forall|t: int| 0 <= t < seg.len() - 1 implies !(seg[t] == '.'
        && #[trigger] seg[t + 1] == '.') by {
        assert(seg[t] == k[t]);
        assert(seg[t + 1] == k[t + 1]);
    }
    assert(rest.len() == k.len() - d - 1);
    assert forall|t: int| 0 <= t < rest.len() implies is_key_c(#[trigger] rest[t], opts) by {
        assert(rest[t] == k[d + 1 + t]);
    }
    assert(rest[0] == k[d + 1]);
    assert(k[d + 1] != '.') by {
        assert(!(k[d] == '.' && k[d + 1] == '.'));
    }
    assert(rest[rest.len() - 1] == k[k.len() - 1]);
    assert forall|t: int| 0 <= t < rest.len() - 1 implies !(rest[t] == '.'
        && #[trigger] rest[t + 1] == '.') by {
        assert(rest[t] == k[d + 1 + t]);
        assert(rest[t + 1] == k[d + 1 + t + 1]);
    }
    assert(seg.add(seq!['.']).add(rest) =~= k);
}

/// A section name that headers can carry: non-empty, of key
/// characters, without a dot.
pub open spec fn valid_section(sec: Seq<char>, opts: Opts) -> bool {
    &&& sec.len() > 0
    &&& (forall|t: int| 0 <= t < sec.len() ==> is_key_c(#[trigger] sec[t], opts))
    &&& !has_dot(sec)
}

/// At a section header, the parser consumes the heading and goes on
/// with the named section in force.
#[verifier::rlimit(100)]
proof fn lemma_step_header(s: Seq<char>, i: int, seg: Seq<char>, sec: Seq<char>, rest: Seq<
    char,
>, opts: Opts)
    requires
        0 <= i <= s.len(),
        valid_section(seg, opts),
        s.skip(i) == seq!['['].add(seg).add(seq![']', '\n']).add(rest),
        rest.len() > 0,
        is_key_c(rest[0], opts),
    ensures
        i + seg.len() + 3 <= s.len(),
        step(s, i, sec, opts) == step(s, i + seg.len() + 3, seg, opts),
        s.skip(i + seg.len() + 3) == rest,
{
    let sl = seg.len() as int;
    let a1 = seq!['['].add(seg);
    let a2 = a1.add(seq![']', '\n']);
    let em = a2.add(rest);
    assert(s.skip(i) == em);
    assert(a2.len() == sl + 3);
    assert(em.len() == sl + 3 + rest.len());
    assert(i + sl + 3 <= s.len());
    assert forall|t: int| 0 <= t < em.len() implies s[i + t] == em[t] by {
        assert(s.skip(i)[t] == s[i + t]);
    }
    assert(s[i] == '[') by {
        assert(em[0] == a2[0]);
        assert(a2[0] == a1[0]);
    }
    assert forall|t: int| i + 1 <= t < i + 1 + sl implies s[t] == seg[t - i - 1] by {
        assert(em[t - i] == a2[t - i]);
        assert(a2[t - i] == a1[t - i]);
        assert(a1[t - i] == seg[t - i - 1]);
    }
    assert(s[i + 1 + sl] == ']') by {
        assert(em[1 + sl] == a2[1 + sl]);
    }
    assert(s[i + 2 + sl] == '\n') by {
        assert(em[2 + sl] == a2[2 + sl]);
    }
    assert forall|t: int| 0 <= t < rest.len() implies s[i + sl + 3 + t] == rest[t] by {
        assert(em[sl + 3 + t] == rest[t]);
    }
    assert(s.skip(i + sl + 3) =~= rest);
    // the statement starts right at the bracket
    lemma_ws_end_at(s, i, i);
    // the name begins directly after it
    lemma_key_char_plain(seg[0], opts);
    assert(s[i + 1] == seg[0]);
    lemma_ws_end_at(s, i + 1, i + 1);
    // the name runs to the closing bracket
    assert forall|t: int| i + 1 <= t < i + 1 + sl implies is_key_c(#[trigger] s[t], opts) by {
        assert(s[t] == seg[t - i - 1]);
    }
    lemma_key_end_at(s, i + 1, i + 1 + sl, opts);
    assert(s.subrange(i + 1, i + 1 + sl) =~= seg);
    assert(dot_ok(seg)) by {
        if seg[0] == '.' || seg[seg.len() - 1] == '.' {
            assert(has_dot(seg));
        }
    }
    // no whitespace before the bracket closes
    lemma_ws_end_at(s, i + 1 + sl, i + 1 + sl);
    // the line feed after the bracket ends the heading
    lemma_skip_nl(s, i + 2 + sl, rest, opts);
}

/// A serialized store opens with a key character or a section bracket.
proof fn lemma_emit_head(ps: Seq<(Seq<char>, Seq<char>)>, sec: Seq<char>, opts: Opts)
    requires
        ps.len() > 0,
        rt_pairs(ps, opts),
    ensures
        emit(ps, sec).len() > 0,
        is_key_c(emit(ps, sec)[0], opts) || emit(ps, sec)[0] == '[',
{
    let k = ps[0].0;
    assert(rt_pair(ps[0], opts));
    crate::format::lemma_first_dot(k);
    let d = first_dot(k);
    let em = emit(ps, sec);
    if d == k.len() {
        assert(em[0] == k[0]);
    } else {
        let seg = k.subrange(0, d);
        let header: Seq<char> = if seg == sec {
            Seq::empty()
        } else {
            seq!['['].add(seg).add(seq![']', '\n'])
        };
        if seg == sec {
            assert(em[0] == k.skip(d + 1)[0]);
            assert(k.skip(d + 1)[0] == k[d + 1]);
            assert(k[d + 1] != '.') by {
                assert(!(k[d] == '.' && k[d + 1] == '.'));
            }
        } else {
            assert(em[0] == header[0]);
            assert(header[0] == '[');
        }
    }
}

/// The entries with dotless keys stand before every entry with a
/// dotted key.
pub open spec fn dl_prefix(ps: Seq<(Seq<char>, Seq<char>)>) -> bool {
    forall|i: int, j: int|
        0 <= i < j < ps.len() ==> (has_dot(#[trigger] ps[i].0) ==> has_dot(#[trigger] ps[j].0))
}

/// A whole serialized document parses back to exactly its pairs, in
/// order, with the current section threaded through the headers.
#[verifier::rlimit(100)]
#[verifier::spinoff_prover]
proof fn lemma_parse_emit_from(
    s: Seq<char>,
    i: int,
    ps: Seq<(Seq<char>, Seq<char>)>,
    sec: Seq<char>,
    opts: Opts,
)
    requires
        0 <= i <= s.len(),
        rt_pairs(ps, opts),
        dl_prefix(ps),
        sec.len() == 0 || valid_section(sec, opts),
        sec.len() > 0 && ps.len() > 0 ==> has_dot(ps[0].0),
        s.skip(i) == emit(ps, sec),
    ensures
        parse_from(s, i, sec, opts) == Ok::<Seq<(Seq<char>, Seq<char>)>, ErrAt>(ps),
    decreases ps.len(),
{
    if ps.len() == 0 {
        assert(s.skip(i).len() == 0);
        assert(i == s.len());
        assert(ws_end(s, i) == i);
        assert(step(s, i, sec, opts) == Step::Done);
        assert(Seq::<(Seq<char>, Seq<char>)>::empty() =~= ps);
    } else {
        let k = ps[0].0;
        let v = ps[0].1;
        let fv = fmt_value(v);
        let ps2 = ps.drop_first();
        let em = emit(ps, sec);
        assert(rt_pair(ps[0], opts));
        assert(rt_pairs(ps2, opts)) by {
            assert forall|j: int| 0 <= j < ps2.len() implies rt_pair(#[trigger] ps2[j], opts)
                by {
                assert(ps2[j] == ps[j + 1]);
            }
        }
        assert(dl_prefix(ps2)) by {
            assert forall|a: int, b: int|
                0 <= a < b < ps2.len() && has_dot(#[trigger] ps2[a].0) implies has_dot(
                #[trigger] ps2[b].0,
            ) by {
                assert(ps2[a] == ps[a + 1]);
                assert(ps2[b] == ps[b + 1]);
            }
        }
        crate::format::lemma_first_dot(k);
        let d = first_dot(k);
        if d == k.len() {
            // a dotless key: no heading, and the section in force is
            // still the top level
            assert(sec.len() == 0) by {
                if sec.len() > 0 {
                    assert(has_dot(k));
                    let w = choose|w: int| 0 <= w < k.len() && k[w] == '.';
                    assert(k[w] != '.');
                }
            }
            let rest = emit(ps2, sec);
            assert(em == k.add(seq![' ', '=', ' ']).add(fv).add(seq!['\n']).add(rest));
            assert(dot_ok(k)) by {
                if k[0] == '.' || k[k.len() - 1] == '.' {
                    assert(has_dot(k));
                    assert(d < k.len());
                }
            }
            if ps2.len() > 0 {
                lemma_emit_head(ps2, sec, opts);
            }
            lemma_step_kv(s, i, k, v, sec, rest, opts);
            let end = i + k.len() + 4 + fv.len();
            assert(qualify(sec, k) == k);
            lemma_parse_emit_from(s, end, ps2, sec, opts);
            assert(parse_from(s, i, sec, opts) == Ok::<Seq<(Seq<char>, Seq<char>)>, ErrAt>(
                seq![(k, v)].add(ps2),
            ));
            assert(seq![(k, v)].add(ps2) =~= ps);
        } else {
            // a dotted key: the first segment names the section
            lemma_split_key(k, opts);
            let seg = k.subrange(0, d);
            let kt = k.skip(d + 1);
            let rest = emit(ps2, seg);
            assert(sec.len() > 0 && ps2.len() > 0 ==> has_dot(ps2[0].0));
            assert(ps2.len() > 0 ==> has_dot(ps2[0].0)) by {
                if ps2.len() > 0 && !has_dot(ps2[0].0) {
                    assert(ps[1] == ps2[0]);
                    assert(has_dot(ps[0].0) ==> has_dot(ps[1].0));
                    assert(has_dot(k)) by {
                        assert(k[d] == '.');
                    }
                }
            }
            if ps2.len() > 0 {
                lemma_emit_head(ps2, seg, opts);
            }
            if seg == sec {
                // the section is already in force: just the line
                assert(em == kt.add(seq![' ', '=', ' ']).add(fv).add(seq!['\n']).add(rest));
                assert(dot_ok(kt)) by {
                    assert(kt.len() > 0);
                    assert(kt[0] != '.');
                    assert(kt[kt.len() - 1] != '.');
                }
                lemma_step_kv(s, i, kt, v, sec, rest, opts);
                let end = i + kt.len() + 4 + fv.len();
                assert(qualify(sec, kt) == k);
                lemma_parse_emit_from(s, end, ps2, seg, opts);
                assert(parse_from(s, i, sec, opts) == Ok::<Seq<(Seq<char>, Seq<char>)>, ErrAt>(
                    seq![(k, v)].add(ps2),
                ));
                assert(seq![(k, v)].add(ps2) =~= ps);
            } else {
                // a new heading, then the line
                let line = kt.add(seq![' ', '=', ' ']).add(fv).add(seq!['\n']).add(rest);
                assert(em == seq!['['].add(seg).add(seq![']', '\n']).add(line)) by {
                    assert(em == seq!['['].add(seg).add(seq![']', '\n']).add(kt).add(
                        seq![' ', '=', ' '],
                    ).add(fv).add(seq!['\n']).add(rest));
                    assert(seq!['['].add(seg).add(seq![']', '\n']).add(kt).add(
                        seq![' ', '=', ' '],
                    ).add(fv).add(seq!['\n']).add(rest) =~= seq!['['].add(seg).add(
                        seq![']', '\n'],
                    ).add(line));
                }
                assert(kt[0] != '.');
                lemma_step_header(s, i, seg, sec, line, opts);
                let i2 = i + seg.len() + 3;
                assert(dot_ok(kt)) by {
                    assert(kt.len() > 0);
                    assert(kt[0] != '.');
                    assert(kt[kt.len() - 1] != '.');
                }
                lemma_step_kv(s, i2, kt, v, seg, rest, opts);
                let end = i2 + kt.len() + 4 + fv.len();
                assert(qualify(seg, kt) == k);
                assert(step(s, i, sec, opts) == (Step::Pair {
                    key: k,
                    val: v,
                    end: end,
                    section: seg,
                    vline: step(s, i, sec, opts)->vline,
                    vcol: step(s, i, sec, opts)->vcol,
                }));
                lemma_parse_emit_from(s, end, ps2, seg, opts);
                assert(parse_from(s, i, sec, opts) == Ok::<Seq<(Seq<char>, Seq<char>)>, ErrAt>(
                    seq![(k, v)].add(ps2),
                ));
                assert(seq![(k, v)].add(ps2) =~= ps);
            }
        }
    }
}

/// A whole serialized document of reproducible pairs parses back to
/// exactly those pairs, in order.
pub proof fn lemma_parse_emit(s: Seq<char>, i: int, ps: Seq<(Seq<char>, Seq<char>)>, opts: Opts)
    requires
        0 <= i <= s.len(),
        rt_pairs(ps, opts),
        dl_prefix(ps),
        s.skip(i) == emit(ps, Seq::empty()),
    ensures
        parse_from(s, i, Seq::empty(), opts) == Ok::<Seq<(Seq<char>, Seq<char>)>, ErrAt>(ps),
    decreases ps.len(),
{
    lemma_parse_emit_from(s, i, ps, Seq::empty(), opts);
}



/// Escaping leaves a backtick-free prefix unchanged.
proof fn lemma_escape_plain_prefix(v: Seq<char>, n: int)
    requires
        0 <= n <= v.len(),
        forall|t: int| 0 <= t < n ==> v[t] != '`',
    ensures
        escape_raw(v).len() >= n,
        forall|t: int| 0 <= t < n ==> escape_raw(v)[t] == v[t],
        escape_raw(v).skip(n) == escape_raw(v.skip(n)),
    decreases n,
{
    if n > 0 {
        assert(escape_raw(v) == seq![v[0]].add(escape_raw(v.drop_first())));
        lemma_escape_plain_prefix(v.drop_first(), n - 1);
        assert(v.drop_first().skip(n - 1) =~= v.skip(n));
        assert forall|t: int| 0 <= t < n implies escape_raw(v)[t] == v[t] by {
            if t > 0 {
                assert(escape_raw(v)[t] == escape_raw(v.drop_first())[t - 1]);
                assert(v.drop_first()[t - 1] == v[t]);
            }
        }
        assert(escape_raw(v).skip(n) =~= escape_raw(v.drop_first()).skip(n - 1));
    } else {
        assert(escape_raw(v).skip(0) =~= escape_raw(v));
        assert(v.skip(0) =~= v);
    }
}

/// The linter's raw-value scan passes an escaped value cleanly: no
/// report, the scan stops after the closing backtick, and the value
/// counts as terminated. The candidate heuristics may fire, but they
/// report nothing while the value closes properly.
#[verifier::spinoff_prover]
proof fn lemma_lr_clean(
    s: Seq<char>,
    i: int,
    v: Seq<char>,
    lk: Option<int>,
    det: Option<int>,
    opts: Opts,
)
    requires
        0 <= i,
        i + escape_raw(v).len() + 1 <= s.len(),
        forall|t: int| 0 <= t < escape_raw(v).len() ==> s[i + t] == escape_raw(v)[t],
        s[i + escape_raw(v).len()] == '`',
        i + escape_raw(v).len() + 1 < s.len() ==> s[i + escape_raw(v).len() + 1] == '\n',
    ensures
        lr_spec(s, i, lk, det, opts).0 == Seq::<crate::linter::Diagnostic>::empty(),
        lr_spec(s, i, lk, det, opts).1 == i + escape_raw(v).len() + 1,
        lr_spec(s, i, lk, det, opts).3 == true,
    decreases v.len(),
{
    let e = escape_raw(v);
    let el = e.len() as int;
    if v.len() == 0 {
        assert(el == 0);
        assert(s[i] == '`');
        if i + 1 < s.len() {
            assert(s[i + 1] == '\n');
            assert(!is_value_c('\n', opts)) by {
                assert(is_vws('\n'));
            }
        }
    } else {
        let c = v[0];
        let v2 = v.drop_first();
        let e2 = escape_raw(v2);
        if c == '`' {
            assert(e == seq!['`', '`'].add(e2));
            assert(s[i] == e[0] && e[0] == '`');
            assert(s[i + 1] == e[1] && e[1] == '`');
            assert forall|t: int| 0 <= t < e2.len() implies s[i + 2 + t] == e2[t] by {
                assert(e[t + 2] == e2[t]);
            }
            lemma_lr_clean(s, i + 2, v2, None, det, opts);
        } else if is_white(c) {
            // the scan jumps over the whole white run of the value
            let wp = crate::grammar::ws_end(v, 0);
            crate::grammar::lemma_ws_end(v, 0);
            assert(wp >= 1);
            assert forall|t: int| 0 <= t < wp implies v[t] != '`' by {
                assert(is_white(v[t]));
            }
            lemma_escape_plain_prefix(v, wp);
            assert forall|t: int| i <= t < i + wp implies is_white(#[trigger] s[t]) by {
                assert(s[t] == e[t - i]);
                assert(e[t - i] == v[t - i]);
            }
            assert(s[i + wp] != '\u{0}' || true);
            // the run ends at the next value character or the closing
            // backtick, either way not whitespace
            assert(!is_white(s[i + wp])) by {
                if wp < v.len() {
                    assert(e.skip(wp) == escape_raw(v.skip(wp)));
                    assert(v.skip(wp).len() > 0);
                    assert(e.skip(wp).len() == el - wp);
                    if v[wp] == '`' {
                        assert(escape_raw(v.skip(wp)) == seq!['`', '`'].add(
                            escape_raw(v.skip(wp).drop_first()),
                        )) by {
                            assert(v.skip(wp)[0] == '`');
                        }
                        assert(e.skip(wp).len() >= 2);
                        assert(wp < el);
                        assert(e.skip(wp)[0] == e[wp]);
                        assert(s[i + wp] == e[wp]);
                        assert(e[wp] == '`');
                        assert(!is_white('`'));
                    } else {
                        assert(escape_raw(v.skip(wp)) == seq![v.skip(wp)[0]].add(
                            escape_raw(v.skip(wp).drop_first()),
                        ));
                        assert(e.skip(wp).len() >= 1);
                        assert(wp < el);
                        assert(e.skip(wp)[0] == e[wp]);
                        assert(s[i + wp] == e[wp]);
                        assert(e[wp] == v.skip(wp)[0]);
                        assert(v.skip(wp)[0] == v[wp]);
                    }
                } else {
                    assert(wp == v.len());
                    assert(el == wp) by {
                        assert(e.skip(wp) == escape_raw(v.skip(wp)));
                        assert(v.skip(wp).len() == 0);
                    }
                    assert(s[i + wp] == '`');
                    assert(!is_white('`'));
                }
            }
            crate::grammar::lemma_ws_end_at(s, i, i + wp);
            assert(!is_key_c(c, opts)) by {
                if is_key_c(c, opts) {
                    lemma_key_char_plain(c, opts);
                }
            }
            assert(c != '=') by {
                assert(is_white(c));
            }
            assert(c != '`');
            let vr = v.skip(wp);
            assert(e.skip(wp) == escape_raw(vr));
            assert forall|t: int| 0 <= t < escape_raw(vr).len() implies s[i + wp + t]
                == escape_raw(vr)[t] by {
                assert(e.skip(wp)[t] == e[wp + t]);
            }
            assert(escape_raw(vr).len() == el - wp);
            lemma_lr_clean(s, i + wp, vr, if i + wp < s.len() && s[i + wp] == '=' {
                lk
            } else {
                None
            }, det, opts);
        } else {
            assert(e == seq![c].add(e2));
            assert(s[i] == e[0] && e[0] == c);
            assert forall|t: int| 0 <= t < e2.len() implies s[i + 1 + t] == e2[t] by {
                assert(e[t + 1] == e2[t]);
            }
            if c == '=' {
                lemma_lr_clean(s, i + 1, v2, None, if det is None && lk is Some {
                    lk
                } else {
                    det
                }, opts);
            } else if is_key_c(c, opts) {
                lemma_lr_clean(s, i + 1, v2, if lk is None {
                    Some(i)
                } else {
                    lk
                }, det, opts);
            } else {
                lemma_lr_clean(s, i + 1, v2, None, det, opts);
            }
        }
    }
}

/// A serialized `key = value` line passes the linter without a
/// report, leaving the scan at the next line.
#[verifier::rlimit(100)]
#[verifier::spinoff_prover]
proof fn lemma_lint_kv_line(
    s: Seq<char>,
    i: int,
    kt: Seq<char>,
    v: Seq<char>,
    rest: Seq<char>,
    opts: Opts,
)
    requires
        0 <= i <= s.len(),
        kt.len() > 0,
        forall|t: int| 0 <= t < kt.len() ==> is_key_c(#[trigger] kt[t], opts),
        dot_ok(kt),
        trim_spec(v) == v,
        s.skip(i) == kt.add(seq![' ', '=', ' ']).add(fmt_value(v)).add(seq!['\n']).add(rest),
        rest.len() > 0 ==> (is_key_c(rest[0], opts) || rest[0] == '['),
    ensures
        lint_from(s, i, opts) == lint_from(s, i + kt.len() + 4 + fmt_value(v).len(), opts),
{
    let k = kt;
    let fv = fmt_value(v);
    let kl = k.len() as int;
    let fl = fv.len() as int;
    let m3 = seq![' ', '=', ' '];
    let nl = seq!['\n'];
    let a1 = k.add(m3);
    let a2 = a1.add(fv);
    let a3 = a2.add(nl);
    let em = a3.add(rest);
    assert(s.skip(i) == em);
    let ll = kl + 4 + fl;
    assert(a3.len() == ll);
    assert(em.len() == ll + rest.len());
    assert(i + ll <= s.len());
    assert forall|t: int| 0 <= t < em.len() implies s[i + t] == em[t] by {
        assert(s.skip(i)[t] == s[i + t]);
    }
    assert forall|t: int| i <= t < i + kl implies s[t] == k[t - i] by {
        assert(em[t - i] == a3[t - i]);
        assert(a3[t - i] == a2[t - i]);
        assert(a2[t - i] == a1[t - i]);
        assert(a1[t - i] == k[t - i]);
    }
    assert(s[i + kl] == ' ') by {
        assert(em[kl] == a3[kl]);
        assert(a3[kl] == a2[kl]);
        assert(a2[kl] == a1[kl]);
        assert(a1[kl] == m3[0]);
    }
    assert(s[i + kl + 1] == '=') by {
        assert(em[kl + 1] == a3[kl + 1]);
        assert(a3[kl + 1] == a2[kl + 1]);
        assert(a2[kl + 1] == a1[kl + 1]);
        assert(a1[kl + 1] == m3[1]);
    }
    assert(s[i + kl + 2] == ' ') by {
        assert(em[kl + 2] == a3[kl + 2]);
        assert(a3[kl + 2] == a2[kl + 2]);
        assert(a2[kl + 2] == a1[kl + 2]);
        assert(a1[kl + 2] == m3[2]);
    }
    assert forall|t: int| 0 <= t < fl implies s[i + kl + 3 + t] == fv[t] by {
        assert(em[kl + 3 + t] == a3[kl + 3 + t]);
        assert(a3[kl + 3 + t] == a2[kl + 3 + t]);
        assert(a2[kl + 3 + t] == fv[t]);
    }
    assert(s[i + kl + 3 + fl] == '\n') by {
        assert(em[kl + 3 + fl] == a3[kl + 3 + fl]);
        assert(a3[kl + 3 + fl] == nl[0]);
    }
    assert forall|t: int| 0 <= t < rest.len() implies s[i + ll + t] == rest[t] by {
        assert(em[ll + t] == rest[t]);
    }
    assert forall|t: int| i <= t < i + kl implies is_key_c(#[trigger] s[t], opts) by {
        assert(s[t] == k[t - i]);
    }
    lemma_key_char_plain(k[0], opts);
    assert(s[i] == k[0]);
    // the key checks cleanly
    assert(!is_key_c(' ', opts)) by {
        assert(is_white(' '));
    }
    lemma_ck_clean(s, i, i + kl, opts);
    // one space, then the equals sign, then one more space
    lemma_ws_end_at(s, i + kl, i + kl + 1);
    let vs = i + kl + 3;
    if v.len() == 0 {
        // the empty value is written as a `#empty` comment; the line is
        // consumed as one
        assert(fv == seq!['#', 'e', 'm', 'p', 't', 'y']);
        assert(s[vs] == '#');
        lemma_ws_end_at(s, i + kl + 2, vs);
        lemma_value_end_at(s, vs, vs, opts);
        assert(kv_spec(s, i, opts) == (Seq::<crate::linter::Diagnostic>::empty(), vs)) by {
            assert(Seq::<crate::linter::Diagnostic>::empty().add(
                Seq::<crate::linter::Diagnostic>::empty(),
            ) =~= Seq::<crate::linter::Diagnostic>::empty());
        }
        assert(lint_from(s, i, opts) == lint_from(s, vs, opts)) by {
            assert(Seq::<crate::linter::Diagnostic>::empty().add(lint_from(s, vs, opts))
                =~= lint_from(s, vs, opts));
        }
        // the rest of the written value is a comment through the line
        // feed
        assert forall|t: int| vs <= t < vs + 6 implies !is_vws(#[trigger] s[t]) by {
            assert(s[t] == fv[t - vs - 1 + 1]);
        }
        lemma_line_end_at(s, vs, vs + 6);
        assert(crate::grammar::cmt_end(s, vs) == i + ll);
        assert(lint_from(s, vs, opts) == lint_from(s, i + ll, opts));
    } else if needs_raw(v) {
        // the value is written raw; the scan passes it cleanly
        assert(fv == seq!['`'].add(escape_raw(v)).add(seq!['`']));
        let el = escape_raw(v).len() as int;
        assert(fl == el + 2);
        assert(fv[0] == '`') by {
            assert(fv[0] == seq!['`'].add(escape_raw(v))[0]);
        }
        assert(s[i + kl + 3 + 0] == fv[0]);
        assert(s[vs] == '`');
        lemma_ws_end_at(s, i + kl + 2, vs);
        assert forall|t: int| 0 <= t < el implies s[vs + 1 + t] == escape_raw(v)[t] by {
            assert(fv[1 + t] == escape_raw(v)[t]);
        }
        assert(s[vs + 1 + el] == '`') by {
            assert(fv[1 + el] == '`');
        }
        assert(s[vs + 1 + el + 1] == '\n');
        lemma_lr_clean(s, vs + 1, v, None, None, opts);
        assert(kv_spec(s, i, opts) == (Seq::<crate::linter::Diagnostic>::empty(), vs + fl)) by {
            assert(Seq::<crate::linter::Diagnostic>::empty().add(
                Seq::<crate::linter::Diagnostic>::empty(),
            ) =~= Seq::<crate::linter::Diagnostic>::empty());
        }
        assert(lint_from(s, i, opts) == lint_from(s, vs + fl, opts)) by {
            assert(Seq::<crate::linter::Diagnostic>::empty().add(lint_from(s, vs + fl, opts))
                =~= lint_from(s, vs + fl, opts));
        }
        if rest.len() > 0 {
            if is_key_c(rest[0], opts) {
                lemma_key_char_plain(rest[0], opts);
            }
        }
        lemma_lint_nl(s, vs + fl, opts);
    } else {
        // a bareword: the value stands as it is and ends at the line
        // feed
        assert(fv == v);
        lemma_trim_fix(v);
        assert(s[vs] == v[0]);
        lemma_ws_end_at(s, i + kl + 2, vs);
        assert(s[vs] != '`');
        assert forall|t: int| vs <= t < vs + fl implies is_value_c(#[trigger] s[t], opts) by {
            let c = s[t];
            assert(c == v[t - vs]);
            assert(!(c == '`' || is_vws(c) || c == '#' || c == ';'));
        }
        lemma_value_end_at(s, vs, vs + fl, opts);
        assert(kv_spec(s, i, opts) == (Seq::<crate::linter::Diagnostic>::empty(), vs + fl)) by {
            assert(Seq::<crate::linter::Diagnostic>::empty().add(
                Seq::<crate::linter::Diagnostic>::empty(),
            ) =~= Seq::<crate::linter::Diagnostic>::empty());
        }
        assert(lint_from(s, i, opts) == lint_from(s, vs + fl, opts)) by {
            assert(Seq::<crate::linter::Diagnostic>::empty().add(lint_from(s, vs + fl, opts))
                =~= lint_from(s, vs + fl, opts));
        }
        // the line feed leads to the next statement
        if rest.len() > 0 {
            if is_key_c(rest[0], opts) {
                lemma_key_char_plain(rest[0], opts);
            }
        }
        lemma_lint_nl(s, vs + fl, opts);
    }
}

/// A serialized section heading passes the linter without a report,
/// leaving the scan at the line after it.
#[verifier::rlimit(100)]
#[verifier::spinoff_prover]
proof fn lemma_lint_header(s: Seq<char>, i: int, seg: Seq<char>, rest: Seq<char>, opts: Opts)
    requires
        0 <= i <= s.len(),
        valid_section(seg, opts),
        s.skip(i) == seq!['['].add(seg).add(seq![']', '\n']).add(rest),
        rest.len() > 0,
        is_key_c(rest[0], opts),
    ensures
        lint_from(s, i, opts) == lint_from(s, i + seg.len() + 3, opts),
{
    let sl = seg.len() as int;
    let a1 = seq!['['].add(seg);
    let a2 = a1.add(seq![']', '\n']);
    let em = a2.add(rest);
    assert(s.skip(i) == em);
    assert(a2.len() == sl + 3);
    assert(em.len() == sl + 3 + rest.len());
    assert(i + sl + 3 <= s.len());
    assert forall|t: int| 0 <= t < em.len() implies s[i + t] == em[t] by {
        assert(s.skip(i)[t] == s[i + t]);
    }
    assert(s[i] == '[') by {
        assert(em[0] == a2[0]);
        assert(a2[0] == a1[0]);
    }
    assert forall|t: int| i + 1 <= t < i + 1 + sl implies s[t] == seg[t - i - 1] by {
        assert(em[t - i] == a2[t - i]);
        assert(a2[t - i] == a1[t - i]);
        assert(a1[t - i] == seg[t - i - 1]);
    }
    assert(s[i + 1 + sl] == ']') by {
        assert(em[1 + sl] == a2[1 + sl]);
    }
    assert(s[i + 2 + sl] == '\n') by {
        assert(em[2 + sl] == a2[2 + sl]);
    }
    assert forall|t: int| 0 <= t < rest.len() implies s[i + sl + 3 + t] == rest[t] by {
        assert(em[sl + 3 + t] == rest[t]);
    }
    assert forall|t: int| i + 1 <= t < i + 1 + sl implies is_key_c(#[trigger] s[t], opts) by {
        assert(s[t] == seg[t - i - 1]);
    }
    lemma_key_char_plain(seg[0], opts);
    assert(s[i + 1] == seg[0]);
    // the heading's name checks cleanly
    lemma_ws_end_at(s, i + 1, i + 1);
    assert(seg[0] != '.') by {
        if seg[0] == '.' {
            assert(has_dot(seg));
        }
    }
    assert(seg[seg.len() - 1] != '.') by {
        if seg[seg.len() - 1] == '.' {
            assert(has_dot(seg));
        }
    }
    lemma_ck_clean(s, i + 1, i + 1 + sl, opts);
    // the name fills the heading, so it counts as present
    assert forall|t: int| i + 1 <= t < i + 1 + sl implies !is_vws(#[trigger] s[t]) by {
        lemma_key_char_plain(s[t], opts);
    }
    lemma_cursor_line(s, i + 1, i + 1 + sl);
    lemma_ws_end_at(s, i + 1 + sl, i + 1 + sl);
    assert(hd_spec(s, i, opts) == (Seq::<crate::linter::Diagnostic>::empty(), i + sl + 2)) by {
        assert(hc_spec(s, i + 1, opts) == (false, 0int, i + 1));
        assert(hc_spec(s, i + 1 + sl, opts) == (false, 0int, i + 1 + sl));
        assert(cursor_at(s, i + 1 + sl).1 == cursor_at(s, i + 1).1 + sl);
        assert(Seq::<crate::linter::Diagnostic>::empty().add(
            Seq::<crate::linter::Diagnostic>::empty(),
        ) =~= Seq::<crate::linter::Diagnostic>::empty());
    }
    assert(lint_from(s, i, opts) == lint_from(s, i + sl + 2, opts)) by {
        assert(Seq::<crate::linter::Diagnostic>::empty().add(lint_from(s, i + sl + 2, opts))
            =~= lint_from(s, i + sl + 2, opts));
    }
    // the line feed after the bracket leads to the heading's first key
    lemma_key_char_plain(rest[0], opts);
    lemma_lint_nl(s, i + sl + 2, opts);
}

/// A whole serialized document of reproducible pairs and bareword-safe
/// values passes the linter without a single report.
#[verifier::spinoff_prover]
proof fn lemma_lint_emit_from(
    s: Seq<char>,
    i: int,
    ps: Seq<(Seq<char>, Seq<char>)>,
    sec: Seq<char>,
    opts: Opts,
)
    requires
        0 <= i <= s.len(),
        rt_pairs(ps, opts),
        dl_prefix(ps),
        sec.len() == 0 || valid_section(sec, opts),
        sec.len() > 0 && ps.len() > 0 ==> has_dot(ps[0].0),
        s.skip(i) == emit(ps, sec),
    ensures
        lint_from(s, i, opts) == Seq::<crate::linter::Diagnostic>::empty(),
    decreases ps.len(),
{
    if ps.len() == 0 {
        assert(s.skip(i).len() == 0);
        assert(i == s.len());
    } else {
        let k = ps[0].0;
        let v = ps[0].1;
        let fv = fmt_value(v);
        let ps2 = ps.drop_first();
        let em = emit(ps, sec);
        assert(rt_pair(ps[0], opts));
        assert(rt_pairs(ps2, opts)) by {
            assert forall|j: int| 0 <= j < ps2.len() implies rt_pair(#[trigger] ps2[j], opts)
                by {
                assert(ps2[j] == ps[j + 1]);
            }
        }
        assert(dl_prefix(ps2)) by {
            assert forall|a: int, b: int|
                0 <= a < b < ps2.len() && has_dot(#[trigger] ps2[a].0) implies has_dot(
                #[trigger] ps2[b].0,
            ) by {
                assert(ps2[a] == ps[a + 1]);
                assert(ps2[b] == ps[b + 1]);
            }
        }
        crate::format::lemma_first_dot(k);
        let d = first_dot(k);
        if d == k.len() {
            assert(sec.len() == 0) by {
                if sec.len() > 0 {
                    assert(has_dot(k));
                    let w = choose|w: int| 0 <= w < k.len() && k[w] == '.';
                    assert(k[w] != '.');
                }
            }
            let rest = emit(ps2, sec);
            assert(em == k.add(seq![' ', '=', ' ']).add(fv).add(seq!['\n']).add(rest));
            assert(dot_ok(k)) by {
                if k[0] == '.' || k[k.len() - 1] == '.' {
                    assert(has_dot(k));
                    assert(d < k.len());
                }
            }
            if ps2.len() > 0 {
                lemma_emit_head(ps2, sec, opts);
            }
            lemma_lint_kv_line(s, i, k, v, rest, opts);
            lemma_step_kv(s, i, k, v, sec, rest, opts);
            let end = i + k.len() + 4 + fv.len();
            lemma_lint_emit_from(s, end, ps2, sec, opts);
        } else {
            lemma_split_key(k, opts);
            let seg = k.subrange(0, d);
            let kt = k.skip(d + 1);
            let rest = emit(ps2, seg);
            assert(ps2.len() > 0 ==> has_dot(ps2[0].0)) by {
                if ps2.len() > 0 && !has_dot(ps2[0].0) {
                    assert(ps[1] == ps2[0]);
                    assert(has_dot(ps[0].0) ==> has_dot(ps[1].0));
                    assert(has_dot(k)) by {
                        assert(k[d] == '.');
                    }
                }
            }
            if ps2.len() > 0 {
                lemma_emit_head(ps2, seg, opts);
            }
            assert(dot_ok(kt)) by {
                assert(kt.len() > 0);
                assert(kt[0] != '.');
                assert(kt[kt.len() - 1] != '.');
            }
            if seg == sec {
                assert(em == kt.add(seq![' ', '=', ' ']).add(fv).add(seq!['\n']).add(rest));
                lemma_lint_kv_line(s, i, kt, v, rest, opts);
                lemma_step_kv(s, i, kt, v, sec, rest, opts);
                let end = i + kt.len() + 4 + fv.len();
                lemma_lint_emit_from(s, end, ps2, seg, opts);
            } else {
                let line = kt.add(seq![' ', '=', ' ']).add(fv).add(seq!['\n']).add(rest);
                assert(em == seq!['['].add(seg).add(seq![']', '\n']).add(line)) by {
                    assert(em == seq!['['].add(seg).add(seq![']', '\n']).add(kt).add(
                        seq![' ', '=', ' '],
                    ).add(fv).add(seq!['\n']).add(rest));
                    assert(seq!['['].add(seg).add(seq![']', '\n']).add(kt).add(
                        seq![' ', '=', ' '],
                    ).add(fv).add(seq!['\n']).add(rest) =~= seq!['['].add(seg).add(
                        seq![']', '\n'],
                    ).add(line));
                }
                assert(kt[0] != '.');
                lemma_lint_header(s, i, seg, line, opts);
                lemma_step_header(s, i, seg, sec, line, opts);
                let i2 = i + seg.len() + 3;
                lemma_lint_kv_line(s, i2, kt, v, rest, opts);
                lemma_step_kv(s, i2, kt, v, seg, rest, opts);
                let end = i2 + kt.len() + 4 + fv.len();
                lemma_lint_emit_from(s, end, ps2, seg, opts);
            }
        }
    }
}


/// A text without carriage returns is already normalized.
proof fn lemma_normalize_id(s: Seq<char>)
    requires
        forall|t: int| 0 <= t < s.len() ==> s[t] != '\r',
    ensures
        crate::linter::normalize_crlf(s) == s,
    decreases s.len(),
{
    if s.len() > 0 {
        lemma_normalize_id(s.skip(1));
        assert(crate::linter::normalize_crlf(s) == seq![s[0]].add(
            crate::linter::normalize_crlf(s.skip(1)),
        ));
        assert(seq![s[0]].add(s.skip(1)) =~= s);
    }
}

/// Doubling backticks brings in no carriage return.
proof fn lemma_escape_no_cr(v: Seq<char>)
    requires
        forall|t: int| 0 <= t < v.len() ==> v[t] != '\r',
    ensures
        forall|t: int| 0 <= t < escape_raw(v).len() ==> escape_raw(v)[t] != '\r',
    decreases v.len(),
{
    if v.len() > 0 {
        lemma_escape_no_cr(v.drop_first());
        let e2 = escape_raw(v.drop_first());
        if v[0] == '`' {
            assert forall|t: int| 0 <= t < escape_raw(v).len() implies escape_raw(v)[t] != '\r'
                by {
                if t >= 2 {
                    assert(escape_raw(v)[t] == e2[t - 2]);
                }
            }
        } else {
            assert forall|t: int| 0 <= t < escape_raw(v).len() implies escape_raw(v)[t] != '\r'
                by {
                if t >= 1 {
                    assert(escape_raw(v)[t] == e2[t - 1]);
                }
            }
        }
    }
}

/// Serialized text of reproducible keys and values free of carriage
/// returns holds no carriage return.
proof fn lemma_emit_no_cr(ps: Seq<(Seq<char>, Seq<char>)>, sec: Seq<char>, opts: Opts)
    requires
        rt_pairs(ps, opts),
        forall|x: int, t: int|
            0 <= x < ps.len() && 0 <= t < ps[x].1.len() ==> #[trigger] ps[x].1[t] != '\r',
    ensures
        forall|t: int| 0 <= t < emit(ps, sec).len() ==> emit(ps, sec)[t] != '\r',
    decreases ps.len(),
{
    if ps.len() > 0 {
        let k = ps[0].0;
        let v = ps[0].1;
        let fv = fmt_value(v);
        let ps2 = ps.drop_first();
        assert(rt_pair(ps[0], opts));
        assert(rt_pairs(ps2, opts)) by {
            assert forall|j: int| 0 <= j < ps2.len() implies rt_pair(#[trigger] ps2[j], opts)
                by {
                assert(ps2[j] == ps[j + 1]);
            }
        }
        assert(forall|x: int, t: int|
            0 <= x < ps2.len() && 0 <= t < ps2[x].1.len() ==> #[trigger] ps2[x].1[t] != '\r')
            by {
            assert forall|x: int, t: int|
                0 <= x < ps2.len() && 0 <= t < ps2[x].1.len() implies #[trigger] ps2[x].1[t]
                != '\r' by {
                assert(ps2[x] == ps[x + 1]);
                assert(ps[x + 1].1[t] != '\r');
            }
        }
        crate::format::lemma_first_dot(k);
        let d = first_dot(k);
        assert forall|t: int| 0 <= t < k.len() implies k[t] != '\r' by {
            lemma_key_char_plain(k[t], opts);
            assert(is_white('\r'));
        }
        assert(forall|t: int| 0 <= t < v.len() ==> v[t] != '\r') by {
            assert forall|t: int| 0 <= t < v.len() implies v[t] != '\r' by {
                assert(ps[0].1[t] != '\r');
            }
        }
        lemma_escape_no_cr(v);
        assert forall|t: int| 0 <= t < fv.len() implies fv[t] != '\r' by {
            if v.len() == 0 {
            } else if needs_raw(v) {
                assert(fv == seq!['`'].add(escape_raw(v)).add(seq!['`']));
                if 1 <= t < 1 + escape_raw(v).len() {
                    assert(fv[t] == escape_raw(v)[t - 1]);
                }
            } else {
                assert(fv == v);
            }
        }
        if d == k.len() {
            lemma_emit_no_cr(ps2, sec, opts);
            let rest = emit(ps2, sec);
            let a1 = k.add(seq![' ', '=', ' ']);
            let a2 = a1.add(fv);
            let a3 = a2.add(seq!['\n']);
            assert(emit(ps, sec) == a3.add(rest));
            assert forall|t: int| 0 <= t < emit(ps, sec).len() implies emit(ps, sec)[t] != '\r'
                by {
                if t < a3.len() {
                    assert(emit(ps, sec)[t] == a3[t]);
                    if t < a2.len() {
                        assert(a3[t] == a2[t]);
                        if t < a1.len() {
                            assert(a2[t] == a1[t]);
                        }
                    }
                } else {
                    assert(emit(ps, sec)[t] == rest[t - a3.len()]);
                }
            }
        } else {
            lemma_emit_no_cr(ps2, k.subrange(0, d), opts);
            let seg = k.subrange(0, d);
            let kt = k.skip(d + 1);
            let rest = emit(ps2, seg);
            let header: Seq<char> = if seg == sec {
                Seq::empty()
            } else {
                seq!['['].add(seg).add(seq![']', '\n'])
            };
            let b1 = header.add(kt);
            let b2 = b1.add(seq![' ', '=', ' ']);
            let b3 = b2.add(fv);
            let b4 = b3.add(seq!['\n']);
            assert(emit(ps, sec) == b4.add(rest));
            assert forall|t: int| 0 <= t < header.len() implies header[t] != '\r' by {
                if seg != sec {
                    if 1 <= t < 1 + seg.len() {
                        assert(header[t] == seg[t - 1]);
                        assert(seg[t - 1] == k[t - 1]);
                    }
                }
            }
            assert forall|t: int| 0 <= t < emit(ps, sec).len() implies emit(ps, sec)[t] != '\r'
                by {
                if t < b4.len() {
                    assert(emit(ps, sec)[t] == b4[t]);
                    if t < b3.len() {
                        assert(b4[t] == b3[t]);
                        if t < b2.len() {
                            assert(b3[t] == b2[t]);
                            if t < b1.len() {
                                assert(b2[t] == b1[t]);
                                if t >= header.len() {
                                    assert(b1[t] == kt[t - header.len()]);
                                    assert(kt[t - header.len()] == k[d + 1 + t - header.len()]);
                                }
                            }
                        }
                    }
                } else {
                    assert(emit(ps, sec)[t] == rest[t - b4.len()]);
                }
            }
        }
    }
}

/// Canonical text lints clean: serializing a store of reproducible
/// keys and values free of carriage returns yields text the linter,
/// after its CRLF normalization changes nothing, reports nothing on.
pub proof fn lemma_format_lints_clean(ps: Seq<(Seq<char>, Seq<char>)>, opts: Opts)
    requires
        rt_pairs(ps, opts),
        forall|x: int, t: int|
            0 <= x < ps.len() && 0 <= t < ps[x].1.len() ==> #[trigger] ps[x].1[t] != '\r',
    ensures
        lint_spec(emit(sort_spec(ps), Seq::empty()), opts) == Seq::<
            crate::linter::Diagnostic,
        >::empty(),
        crate::linter::normalize_crlf(emit(sort_spec(ps), Seq::empty())) == emit(
            sort_spec(ps),
            Seq::empty(),
        ),
{
    let sorted = sort_spec(ps);
    lemma_sort_elems(ps);
    lemma_sort_dl(ps);
    assert(rt_pairs(sorted, opts)) by {
        assert forall|j: int| 0 <= j < sorted.len() implies rt_pair(#[trigger] sorted[j], opts)
            by {
            assert(sorted.contains(sorted[j]));
            assert(ps.contains(sorted[j]));
            let w = choose|w: int| 0 <= w < ps.len() && ps[w] == sorted[j];
            assert(rt_pair(ps[w], opts));
        }
    }
    assert(forall|x: int, t: int|
        0 <= x < sorted.len() && 0 <= t < sorted[x].1.len() ==> #[trigger] sorted[x].1[t]
            != '\r') by {
        assert forall|x: int, t: int|
            0 <= x < sorted.len() && 0 <= t < sorted[x].1.len() implies #[trigger] sorted[x].1[t]
            != '\r' by {
            assert(sorted.contains(sorted[x]));
            assert(ps.contains(sorted[x]));
            let w = choose|w: int| 0 <= w < ps.len() && ps[w] == sorted[x];
            assert(ps[w].1[t] != '\r');
        }
    }
    let text = emit(sorted, Seq::empty());
    assert(text.skip(0) =~= text);
    lemma_lint_emit_from(text, 0, sorted, Seq::empty(), opts);
    lemma_emit_no_cr(sorted, Seq::empty(), opts);
    lemma_normalize_id(text);
}

/// No two entries share a key.
pub open spec fn distinct_keys(ps: Seq<(Seq<char>, Seq<char>)>) -> bool {
    forall|i: int, j: int| 0 <= i < j < ps.len() ==> ps[i].0 != ps[j].0
}

/// Inserting into a list keeps exactly the old entries plus the new
/// one.
proof fn lemma_insert_elems(xs: Seq<(Seq<char>, Seq<char>)>, p: (Seq<char>, Seq<char>))
    ensures
        insert_sorted(xs, p).len() == xs.len() + 1,
        forall|q: (Seq<char>, Seq<char>)|
            insert_sorted(xs, p).contains(q) <==> (xs.contains(q) || q == p),
{
    lemma_insert_pos(xs, p.0);
    let pos = insert_pos(xs, p.0);
    let ys = insert_sorted(xs, p);
    assert(ys.len() == xs.len() + 1);
    assert forall|q: (Seq<char>, Seq<char>)|
        ys.contains(q) <==> (xs.contains(q) || q == p) by {
        if ys.contains(q) {
            let j = choose|j: int| 0 <= j < ys.len() && ys[j] == q;
            if j < pos {
                assert(xs[j] == q);
                assert(xs.contains(q));
            } else if j == pos {
                assert(q == p);
            } else {
                assert(xs[j - 1] == q);
                assert(xs.contains(q));
            }
        }
        if xs.contains(q) {
            let j = choose|j: int| 0 <= j < xs.len() && xs[j] == q;
            if j < pos {
                assert(ys[j] == q);
            } else {
                assert(ys[j + 1] == q);
            }
            assert(ys.contains(q));
        }
        if q == p {
            assert(ys[pos] == q);
            assert(ys.contains(q));
        }
    }
}

/// Sorting keeps exactly the entries of the store.
pub proof fn lemma_sort_elems(ps: Seq<(Seq<char>, Seq<char>)>)
    ensures
        sort_spec(ps).len() == ps.len(),
        forall|q: (Seq<char>, Seq<char>)| sort_spec(ps).contains(q) <==> ps.contains(q),
    decreases ps.len(),
{
    if ps.len() == 0 {
        assert forall|q: (Seq<char>, Seq<char>)|
            sort_spec(ps).contains(q) <==> ps.contains(q) by {}
    } else {
        lemma_sort_elems(ps.drop_last());
        lemma_insert_elems(sort_spec(ps.drop_last()), ps.last());
        assert forall|q: (Seq<char>, Seq<char>)|
            sort_spec(ps).contains(q) <==> ps.contains(q) by {
            if ps.contains(q) {
                let j = choose|j: int| 0 <= j < ps.len() && ps[j] == q;
                if j < ps.len() - 1 {
                    assert(ps.drop_last()[j] == q);
                    assert(ps.drop_last().contains(q));
                } else {
                    assert(q == ps.last());
                }
            }
            if ps.drop_last().contains(q) {
                let j = choose|j: int| 0 <= j < ps.drop_last().len() && ps.drop_last()[j] == q;
                assert(ps[j] == q);
                assert(ps.contains(q));
            }
            if q == ps.last() {
                assert(ps[ps.len() - 1] == q);
                assert(ps.contains(q));
            }
        }
    }
}

/// Some entry carries the key.
pub open spec fn has_key(ps: Seq<(Seq<char>, Seq<char>)>, k: Seq<char>) -> bool {
    exists|i: int| 0 <= i < ps.len() && ps[i].0 == k
}

/// Inserting keeps a sorted list free of a duplicate key.
proof fn lemma_insert_distinct(xs: Seq<(Seq<char>, Seq<char>)>, p: (Seq<char>, Seq<char>))
    requires
        distinct_keys(xs),
        !has_key(xs, p.0),
    ensures
        distinct_keys(insert_sorted(xs, p)),
{
    lemma_insert_pos(xs, p.0);
    let pos = insert_pos(xs, p.0);
    let ys = insert_sorted(xs, p);
    assert forall|i: int, j: int| 0 <= i < j < ys.len() implies ys[i].0 != ys[j].0 by {
        let oi: int = if i < pos {
            i
        } else {
            i - 1
        };
        let oj: int = if j < pos {
            j
        } else {
            j - 1
        };
        if i == pos {
            assert(ys[i] == p);
            assert(ys[j] == xs[oj]);
            if ys[j].0 == p.0 {
                assert(has_key(xs, p.0));
            }
        } else if j == pos {
            assert(ys[j] == p);
            assert(ys[i] == xs[oi]);
            if ys[i].0 == p.0 {
                assert(has_key(xs, p.0));
            }
        } else {
            assert(ys[i] == xs[oi]);
            assert(ys[j] == xs[oj]);
        }
    }
}

/// Sorting a store with distinct keys yields a store with distinct
/// keys.
pub proof fn lemma_sort_distinct(ps: Seq<(Seq<char>, Seq<char>)>)
    requires
        distinct_keys(ps),
    ensures
        distinct_keys(sort_spec(ps)),
    decreases ps.len(),
{
    if ps.len() > 0 {
        let head = ps.drop_last();
        assert(distinct_keys(head)) by {
            assert forall|i: int, j: int| 0 <= i < j < head.len() implies head[i].0 != head[j].0
                by {
                assert(head[i] == ps[i]);
                assert(head[j] == ps[j]);
            }
        }
        lemma_sort_distinct(head);
        lemma_sort_elems(head);
        assert(!has_key(sort_spec(head), ps.last().0)) by {
            if has_key(sort_spec(head), ps.last().0) {
                let i = choose|i: int|
                    0 <= i < sort_spec(head).len() && sort_spec(head)[i].0 == ps.last().0;
                let q = sort_spec(head)[i];
                assert(sort_spec(head).contains(q));
                assert(head.contains(q));
                let j = choose|j: int| 0 <= j < head.len() && head[j] == q;
                assert(ps[j].0 == ps.last().0);
                assert(ps[j].0 != ps[ps.len() - 1].0);
            }
        }
        lemma_insert_distinct(sort_spec(head), ps.last());
    }
}

/// A key no entry carries is not in the folded map.
proof fn lemma_map_of_absent(ps: Seq<(Seq<char>, Seq<char>)>, k: Seq<char>)
    requires
        !has_key(ps, k),
    ensures
        !map_of(ps).dom().contains(k),
    decreases ps.len(),
{
    if ps.len() > 0 {
        assert(!has_key(ps.drop_last(), k)) by {
            if has_key(ps.drop_last(), k) {
                let i = choose|i: int|
                    0 <= i < ps.drop_last().len() && ps.drop_last()[i].0 == k;
                assert(ps[i].0 == k);
            }
        }
        lemma_map_of_absent(ps.drop_last(), k);
        assert(ps[ps.len() - 1].0 != k);
    }
}

/// With distinct keys, the folded map holds each entry's value under
/// its key.
proof fn lemma_map_of_found(ps: Seq<(Seq<char>, Seq<char>)>, i: int)
    requires
        distinct_keys(ps),
        0 <= i < ps.len(),
    ensures
        map_of(ps).dom().contains(ps[i].0),
        map_of(ps)[ps[i].0] == ps[i].1,
    decreases ps.len(),
{
    if i == ps.len() - 1 {
    } else {
        let head = ps.drop_last();
        assert(distinct_keys(head)) by {
            assert forall|a: int, b: int| 0 <= a < b < head.len() implies head[a].0 != head[b].0
                by {
                assert(head[a] == ps[a]);
                assert(head[b] == ps[b]);
            }
        }
        assert(head[i] == ps[i]);
        lemma_map_of_found(head, i);
        assert(ps[i].0 != ps[ps.len() - 1].0);
    }
}

/// Two stores with distinct keys and the same entries fold to the same
/// map.
pub proof fn lemma_map_of_perm(ps: Seq<(Seq<char>, Seq<char>)>, qs: Seq<(Seq<char>, Seq<char>)>)
    requires
        distinct_keys(ps),
        distinct_keys(qs),
        forall|q: (Seq<char>, Seq<char>)| ps.contains(q) <==> qs.contains(q),
    ensures
        map_of(ps) == map_of(qs),
{
    assert forall|k: Seq<char>|
        map_of(ps).dom().contains(k) <==> map_of(qs).dom().contains(k) by {
        if has_key(ps, k) {
            let i = choose|i: int| 0 <= i < ps.len() && ps[i].0 == k;
            lemma_map_of_found(ps, i);
            assert(ps.contains(ps[i]));
            assert(qs.contains(ps[i]));
            let j = choose|j: int| 0 <= j < qs.len() && qs[j] == ps[i];
            lemma_map_of_found(qs, j);
        } else {
            lemma_map_of_absent(ps, k);
            assert(!has_key(qs, k)) by {
                if has_key(qs, k) {
                    let j = choose|j: int| 0 <= j < qs.len() && qs[j].0 == k;
                    assert(qs.contains(qs[j]));
                    assert(ps.contains(qs[j]));
                    let i = choose|i: int| 0 <= i < ps.len() && ps[i] == qs[j];
                    assert(ps[i].0 == k);
                }
            }
            lemma_map_of_absent(qs, k);
        }
    }
    assert forall|k: Seq<char>| #[trigger]
        map_of(ps).dom().contains(k) implies map_of(ps)[k] == map_of(qs)[k] by {
        assert(has_key(ps, k)) by {
            if !has_key(ps, k) {
                lemma_map_of_absent(ps, k);
            }
        }
        let i = choose|i: int| 0 <= i < ps.len() && ps[i].0 == k;
        lemma_map_of_found(ps, i);
        assert(ps.contains(ps[i]));
        assert(qs.contains(ps[i]));
        let j = choose|j: int| 0 <= j < qs.len() && qs[j] == ps[i];
        lemma_map_of_found(qs, j);
    }
    assert(map_of(ps) =~= map_of(qs));
}

/// Folding a store with distinct keys changes nothing.
pub proof fn lemma_fold_distinct(ps: Seq<(Seq<char>, Seq<char>)>)
    requires
        distinct_keys(ps),
    ensures
        fold_pairs(ps) == ps,
    decreases ps.len(),
{
    if ps.len() > 0 {
        let head = ps.drop_last();
        assert(distinct_keys(head)) by {
            assert forall|a: int, b: int| 0 <= a < b < head.len() implies head[a].0 != head[b].0
                by {
                assert(head[a] == ps[a]);
                assert(head[b] == ps[b]);
            }
        }
        lemma_fold_distinct(head);
        lemma_key_index(head, ps.last().0);
        assert(key_index(head, ps.last().0) == head.len()) by {
            if key_index(head, ps.last().0) < head.len() {
                assert(head[key_index(head, ps.last().0)].0 == ps.last().0);
                assert(ps[key_index(head, ps.last().0)].0 == ps[ps.len() - 1].0);
            }
        }
        assert(fold_pairs(ps) == head.push(ps.last()));
        assert(head.push(ps.last()) =~= ps);
    }
}

/// Inserting keeps the dotless entries in front: a dotless entry goes
/// in before every dotted one, a dotted entry behind every dotless
/// one.
proof fn lemma_insert_dl(xs: Seq<(Seq<char>, Seq<char>)>, p: (Seq<char>, Seq<char>))
    requires
        dl_prefix(xs),
    ensures
        dl_prefix(insert_sorted(xs, p)),
{
    lemma_insert_pos(xs, p.0);
    let pos = insert_pos(xs, p.0);
    let ys = insert_sorted(xs, p);
    assert forall|i: int, j: int|
        0 <= i < j < ys.len() && has_dot(#[trigger] ys[i].0) implies has_dot(
        #[trigger] ys[j].0,
    ) by {
        let oi: int = if i < pos {
            i
        } else {
            i - 1
        };
        let oj: int = if j < pos {
            j
        } else {
            j - 1
        };
        if i == pos {
            // the new entry is dotted; whatever follows it compared
            // greater than a dotted key, so it cannot be dotless
            assert(ys[i] == p);
            assert(ys[j] == xs[oj]);
            if !has_dot(xs[oj].0) {
                assert(oj >= pos);
                assert(pos < xs.len());
                assert(key_cmp(xs[pos].0, p.0) > 0);
                assert(!has_dot(xs[pos].0)) by {
                    if has_dot(xs[pos].0) {
                        assert(has_dot(xs[oj].0));
                    }
                }
                assert(key_cmp(xs[pos].0, p.0) == -1);
            }
        } else if j == pos {
            // everything before the new entry compared at most equal,
            // so a dotted one there forces the new entry to be dotted
            assert(ys[i] == xs[oi]);
            assert(ys[j] == p);
            assert(oi < pos);
            assert(key_cmp(xs[oi].0, p.0) <= 0);
            if !has_dot(p.0) {
                assert(key_cmp(xs[oi].0, p.0) == 1);
            }
        } else {
            assert(ys[i] == xs[oi]);
            assert(ys[j] == xs[oj]);
        }
    }
}

/// Sorting puts every dotless key before every dotted one.
proof fn lemma_sort_dl(ps: Seq<(Seq<char>, Seq<char>)>)
    ensures
        dl_prefix(sort_spec(ps)),
    decreases ps.len(),
{
    if ps.len() > 0 {
        lemma_sort_dl(ps.drop_last());
        lemma_insert_dl(sort_spec(ps.drop_last()), ps.last());
    }
}

/// Round trip: serializing a store of reproducible keys and parsing
/// the text back yields the same store. The parsed pairs are the
/// sorted store, they fold to themselves, and they mean the same map
/// as the original.
pub proof fn lemma_parse_format_round_trip(ps: Seq<(Seq<char>, Seq<char>)>, opts: Opts)
    requires
        rt_pairs(ps, opts),
        distinct_keys(ps),
    ensures
        parse_doc(emit(sort_spec(ps), Seq::empty()), opts) == Ok::<
            Seq<(Seq<char>, Seq<char>)>,
            ErrAt,
        >(sort_spec(ps)),
        fold_pairs(sort_spec(ps)) == sort_spec(ps),
        map_of(sort_spec(ps)) == map_of(ps),
{
    let sorted = sort_spec(ps);
    lemma_sort_elems(ps);
    lemma_sort_distinct(ps);
    assert(rt_pairs(sorted, opts)) by {
        assert forall|j: int| 0 <= j < sorted.len() implies rt_pair(#[trigger] sorted[j], opts)
            by {
            assert(sorted.contains(sorted[j]));
            assert(ps.contains(sorted[j]));
            let i = choose|i: int| 0 <= i < ps.len() && ps[i] == sorted[j];
            assert(rt_pair(ps[i], opts));
        }
    }
    lemma_sort_dl(ps);
    let text = emit(sorted, Seq::empty());
    assert(text.skip(0) =~= text);
    lemma_parse_emit(text, 0, sorted, opts);
    lemma_fold_distinct(sorted);
    lemma_map_of_perm(ps, sorted);
}

/// Lexicographic comparison flips with its arguments.
proof fn lemma_lex_flip(a: Seq<char>, b: Seq<char>)
    ensures
        lex_cmp(a, b) == -lex_cmp(b, a),
    decreases a.len() + b.len(),
{
    if a.len() > 0 && b.len() > 0 && (a[0] as u32) == (b[0] as u32) {
        lemma_lex_flip(a.drop_first(), b.drop_first());
    }
}

/// Lexicographic comparison is transitive, strictly so when a strict
/// step occurs.
proof fn lemma_lex_trans(a: Seq<char>, b: Seq<char>, c: Seq<char>)
    requires
        lex_cmp(a, b) <= 0,
        lex_cmp(b, c) <= 0,
    ensures
        lex_cmp(a, c) <= 0,
        lex_cmp(a, b) < 0 || lex_cmp(b, c) < 0 ==> lex_cmp(a, c) < 0,
    decreases a.len() + b.len() + c.len(),
{
    if a.len() == 0 {
        if c.len() == 0 && b.len() > 0 {
            assert(lex_cmp(b, c) == 1);
        }
    } else {
        assert(b.len() > 0) by {
            if b.len() == 0 {
                assert(lex_cmp(a, b) == 1);
            }
        }
        assert(c.len() > 0) by {
            if c.len() == 0 {
                assert(lex_cmp(b, c) == 1);
            }
        }
        if (a[0] as u32) < (b[0] as u32) {
            assert((b[0] as u32) <= (c[0] as u32));
        } else if (a[0] as u32) == (b[0] as u32) {
            if (b[0] as u32) < (c[0] as u32) {
            } else if (b[0] as u32) == (c[0] as u32) {
                lemma_lex_trans(a.drop_first(), b.drop_first(), c.drop_first());
            } else {
                assert(lex_cmp(b, c) == 1);
            }
        } else {
            assert(lex_cmp(a, b) == 1);
        }
    }
}

/// On keys without dots the serializer order is plain lexicographic
/// order.
proof fn lemma_key_cmp_dotless(a: Seq<char>, b: Seq<char>)
    requires
        !has_dot(a),
        !has_dot(b),
    ensures
        key_cmp(a, b) == lex_cmp(a, b),
{
    crate::format::lemma_first_dot(a);
    crate::format::lemma_first_dot(b);
    assert(first_dot(a) == a.len()) by {
        if first_dot(a) < a.len() {
            assert(a[first_dot(a)] == '.');
            assert(has_dot(a));
        }
    }
    assert(first_dot(b) == b.len()) by {
        if first_dot(b) < b.len() {
            assert(b[first_dot(b)] == '.');
            assert(has_dot(b));
        }
    }
    assert(split_dots(a) == seq![a]);
    assert(split_dots(b) == seq![b]);
    assert(seq![a][0] == a);
    assert(seq![b][0] == b);
    if lex_cmp(a, b) == 0 {
        assert(seq![a].drop_first().len() == 0);
        assert(segs_cmp(seq![a].drop_first(), seq![b].drop_first()) == 0);
    }
}

/// Entries never come before earlier entries.
pub open spec fn sorted_le(ps: Seq<(Seq<char>, Seq<char>)>) -> bool {
    forall|i: int, j: int| 0 <= i < j < ps.len() ==> key_cmp(ps[i].0, ps[j].0) <= 0
}

/// Every key of the store is dotless.
pub open spec fn dotless(ps: Seq<(Seq<char>, Seq<char>)>) -> bool {
    forall|i: int| 0 <= i < ps.len() ==> !has_dot(#[trigger] ps[i].0)
}

/// Inserting into a weakly sorted dotless store keeps it weakly
/// sorted.
proof fn lemma_insert_weak(xs: Seq<(Seq<char>, Seq<char>)>, p: (Seq<char>, Seq<char>))
    requires
        sorted_le(xs),
        dotless(xs),
        !has_dot(p.0),
    ensures
        sorted_le(insert_sorted(xs, p)),
{
    lemma_insert_pos(xs, p.0);
    let pos = insert_pos(xs, p.0);
    let ys = insert_sorted(xs, p);
    assert forall|i: int, j: int| 0 <= i < j < ys.len() implies key_cmp(ys[i].0, ys[j].0) <= 0
        by {
        let oi: int = if i < pos {
            i
        } else {
            i - 1
        };
        let oj: int = if j < pos {
            j
        } else {
            j - 1
        };
        if i == pos {
            // the new entry against a later one
            assert(ys[i] == p);
            assert(ys[j] == xs[oj]);
            assert(key_cmp(xs[pos].0, p.0) > 0);
            lemma_key_cmp_dotless(xs[pos].0, p.0);
            lemma_key_cmp_dotless(p.0, xs[pos].0);
            lemma_lex_flip(xs[pos].0, p.0);
            if oj == pos {
            } else {
                assert(key_cmp(xs[pos].0, xs[oj].0) <= 0);
                lemma_key_cmp_dotless(xs[pos].0, xs[oj].0);
                lemma_lex_trans(p.0, xs[pos].0, xs[oj].0);
                lemma_key_cmp_dotless(p.0, xs[oj].0);
            }
        } else if j == pos {
            // an earlier entry against the new one
            assert(ys[i] == xs[oi]);
            assert(ys[j] == p);
            assert(key_cmp(xs[oi].0, p.0) <= 0);
        } else {
            assert(ys[i] == xs[oi]);
            assert(ys[j] == xs[oj]);
        }
    }
}

/// Sorting a dotless store yields a weakly sorted dotless store.
proof fn lemma_sort_weak(ps: Seq<(Seq<char>, Seq<char>)>)
    requires
        dotless(ps),
    ensures
        sorted_le(sort_spec(ps)),
        dotless(sort_spec(ps)),
    decreases ps.len(),
{
    lemma_sort_elems(ps);
    assert(dotless(sort_spec(ps))) by {
        assert forall|i: int| 0 <= i < sort_spec(ps).len() implies !has_dot(
            #[trigger] sort_spec(ps)[i].0,
        ) by {
            assert(sort_spec(ps).contains(sort_spec(ps)[i]));
            assert(ps.contains(sort_spec(ps)[i]));
            let w = choose|w: int| 0 <= w < ps.len() && ps[w] == sort_spec(ps)[i];
            assert(!has_dot(ps[w].0));
        }
    }
    if ps.len() > 0 {
        let head = ps.drop_last();
        assert(dotless(head)) by {
            assert forall|i: int| 0 <= i < head.len() implies !has_dot(#[trigger] head[i].0) by {
                assert(head[i] == ps[i]);
            }
        }
        lemma_sort_weak(head);
        assert(!has_dot(ps.last().0)) by {
            assert(ps[ps.len() - 1] == ps.last());
        }
        lemma_insert_weak(sort_spec(head), ps.last());
    }
}

/// Sorting an already weakly sorted store changes nothing.
proof fn lemma_sort_idem(qs: Seq<(Seq<char>, Seq<char>)>)
    requires
        sorted_le(qs),
    ensures
        sort_spec(qs) == qs,
    decreases qs.len(),
{
    if qs.len() > 0 {
        let head = qs.drop_last();
        assert(sorted_le(head)) by {
            assert forall|i: int, j: int| 0 <= i < j < head.len() implies key_cmp(
                head[i].0,
                head[j].0,
            ) <= 0 by {
                assert(head[i] == qs[i]);
                assert(head[j] == qs[j]);
            }
        }
        lemma_sort_idem(head);
        lemma_insert_pos(head, qs.last().0);
        assert(insert_pos(head, qs.last().0) == head.len()) by {
            let pos = insert_pos(head, qs.last().0);
            if pos < head.len() {
                assert(key_cmp(head[pos].0, qs.last().0) > 0);
                assert(head[pos] == qs[pos]);
                assert(qs.last() == qs[qs.len() - 1]);
                assert(key_cmp(qs[pos].0, qs[qs.len() - 1].0) <= 0);
            }
        }
        assert(insert_sorted(head, qs.last()) =~= qs) by {
            assert(head.subrange(0, head.len() as int) =~= head);
            assert(head.subrange(head.len() as int, head.len() as int) =~= Seq::<
                (Seq<char>, Seq<char>),
            >::empty());
        }
    } else {
        assert(sort_spec(qs) =~= qs);
    }
}

/// Serializing is idempotent for stores of dotless keys: what a
/// serialized store parses back to serializes to the very same text.
/// Dotted keys can tie under the section order, where this proof does
/// not reach.
pub proof fn lemma_format_idempotent(ps: Seq<(Seq<char>, Seq<char>)>, opts: Opts)
    requires
        rt_pairs(ps, opts),
        distinct_keys(ps),
        dotless(ps),
    ensures
        parse_doc(emit(sort_spec(ps), Seq::empty()), opts) == Ok::<
            Seq<(Seq<char>, Seq<char>)>,
            ErrAt,
        >(sort_spec(ps)),
        emit(sort_spec(fold_pairs(sort_spec(ps))), Seq::empty()) == emit(
            sort_spec(ps),
            Seq::empty(),
        ),
{
    lemma_parse_format_round_trip(ps, opts);
    let sorted = sort_spec(ps);
    lemma_sort_weak(ps);
    lemma_sort_idem(sorted);
}

} // verus!
