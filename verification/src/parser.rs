//! The strict parser: a pull-based walk over the source text that
//! produces one qualified key/value pair per call, or the first error.
//!
//! Every method is verified against the grammar model in
//! [`crate::grammar`].

use vstd::prelude::*;

use crate::chars::Opts;
use crate::chars::is_comment;
use crate::chars::is_key;
use crate::chars::is_space;
use crate::chars::is_value;
use crate::chars::is_vertical_ws;
use crate::error::Error;
use crate::error::Kind;
use crate::grammar::ErrAt;
use crate::grammar::Step;
use crate::grammar::cmt_end;
use crate::grammar::fold_pairs;
use crate::grammar::key_index;
use crate::grammar::lemma_key_index;
use crate::grammar::lemma_step_progress;
use crate::grammar::parse_doc;
use crate::grammar::parse_from;
use crate::grammar::upsert;
use crate::grammar::dot_ok;
use crate::grammar::key_end;
use crate::grammar::lemma_key_end;
use crate::grammar::lemma_skip_comment_end;
use crate::grammar::line_end;
use crate::grammar::lemma_line_end;
use crate::grammar::lemma_ws_end;
use crate::grammar::lemma_ws_rend;
use crate::grammar::qualify;
use crate::grammar::raw_scan;
use crate::grammar::skip_comment_end;
use crate::grammar::step;
use crate::grammar::trim_spec;
use crate::grammar::value_end;
use crate::grammar::ws_end;
use crate::grammar::ws_rend;
use crate::iter::Iter;
use crate::iter::cursor_at;
use crate::text::chars_of;
use crate::text::push_all;
use crate::text::string_of;

verus! {

/// Joins a partial raw-value scan with what an already consumed prefix
/// contributed: the prefix is put in front of whatever the rest of the
/// scan yields.
pub open spec fn raw_cont(v: Seq<char>, r: Option<(Seq<char>, int)>) -> Option<
    (Seq<char>, int),
> {
    match r {
        None => None,
        Some((v2, e)) => Some((v.add(v2), e)),
    }
}

proof fn lemma_raw_cont_push(v: Seq<char>, c: char, r: Option<(Seq<char>, int)>)
    ensures
        raw_cont(v, raw_cont(seq![c], r)) == raw_cont(v.push(c), r),
{
    match r {
        Some((v2, e)) => {
            assert(v.add(seq![c].add(v2)) =~= v.push(c).add(v2));
        },
        None => {},
    }
}

/// An iterator-like walker that visits all key/value pairs in
/// declaration order, even pairs that a later statement overwrites.
///
/// After [`CniParser::next`] has produced an error, every further call
/// returns `None`.
pub struct CniParser {
    /// The scanner; it stores the current position.
    pub iter: Iter,
    /// The current section name.
    pub section: Vec<char>,
    /// The selected parsing options.
    pub opts: Opts,
    /// The position of the last value.
    pub pos: Option<(usize, usize)>,
    /// Whether an error has been produced; the walk is over then.
    pub done: bool,
}

impl CniParser {
    /// The whole source text.
    pub open spec fn text(&self) -> Seq<char> {
        self.iter.text()
    }

    /// The index of the next character to be read.
    pub open spec fn at(&self) -> int {
        self.iter.at()
    }

    /// The scanner's cursor agrees with the consumed prefix.
    pub open spec fn wf(&self) -> bool {
        self.iter.wf()
    }

    /// Creates a new `CniParser` that will parse the given CNI format
    /// text. The parsing options are set to the defaults.
    ///
    /// The length bound is a machine limit inherited from the scanner.
    pub fn new(text: &str) -> (r: Self)
        requires
            text@.len() < usize::MAX,
        ensures
            r.wf(),
            r.text() == text@,
            r.at() == 0,
            r.section@ == Seq::<char>::empty(),
            r.opts == (Opts { ini: false, more_keys: false }),
            r.pos is None,
            !r.done,
    {
        Self::new_opts(text, Opts { ini: false, more_keys: false })
    }

    /// Creates a new `CniParser` that will parse the given CNI format
    /// text with the given parsing options.
    pub fn new_opts(text: &str, opts: Opts) -> (r: Self)
        requires
            text@.len() < usize::MAX,
        ensures
            r.wf(),
            r.text() == text@,
            r.at() == 0,
            r.section@ == Seq::<char>::empty(),
            r.opts == opts,
            r.pos is None,
            !r.done,
    {
        let src = chars_of(text);
        CniParser { iter: Iter::new(src), section: Vec::new(), opts, pos: None, done: false }
    }

    /// Returns the position of the last value that was returned as a
    /// tuple of line and column (both starting at 1).
    ///
    /// If there was no value read yet or an error occurred, returns
    /// `None`.
    pub fn last_pos(&self) -> (r: Option<(usize, usize)>)
        ensures
            r == self.pos,
    {
        self.pos
    }

    /// Skips whitespace.
    fn skip_ws(&mut self)
        requires
            old(self).wf(),
        ensures
            final(self).wf(),
            final(self).text() == old(self).text(),
            final(self).section == old(self).section,
            final(self).opts == old(self).opts,
            final(self).pos == old(self).pos,
            final(self).done == old(self).done,
            final(self).at() == ws_end(old(self).text(), old(self).at()),
    {
        let ghost s = self.text();
        let ghost i0 = self.at();
        proof {
            lemma_ws_end(s, i0);
        }
        loop
            invariant
                self.wf(),
                self.text() == s,
                self.section == old(self).section,
                self.opts == old(self).opts,
                self.pos == old(self).pos,
                self.done == old(self).done,
                0 <= i0 <= self.at() <= s.len(),
                ws_end(s, self.at()) == ws_end(s, i0),
            ensures
                self.wf(),
                self.text() == s,
                self.section == old(self).section,
                self.opts == old(self).opts,
                self.pos == old(self).pos,
                self.done == old(self).done,
                self.at() == ws_end(s, i0),
            decreases s.len() - self.at(),
        {
            match self.iter.peek() {
                Some(c) if is_space(c) => {
                    self.iter.next();
                },
                _ => {
                    break;
                },
            }
        }
    }

    /// Skips any whitespace, and a comment if one starts where the
    /// whitespace ends, through the end of its line.
    fn skip_comment(&mut self)
        requires
            old(self).wf(),
        ensures
            final(self).wf(),
            final(self).text() == old(self).text(),
            final(self).section == old(self).section,
            final(self).opts == old(self).opts,
            final(self).pos == old(self).pos,
            final(self).done == old(self).done,
            final(self).at() == skip_comment_end(
                old(self).text(),
                old(self).at(),
                old(self).opts,
            ),
    {
        let ghost s = self.text();
        let ghost i0 = self.at();
        self.skip_ws();
        // if we arrive at a comment symbol now, skip the comment after it
        // otherwise do not because we might have also skipped over line ends
        let at_comment = match self.iter.peek() {
            Some(c) => is_comment(c, self.opts),
            None => false,
        };
        if !at_comment {
            return ;
        }
        let ghost w = self.at();
        proof {
            lemma_line_end(s, w);
        }
        // continue until the next vertical whitespace or the end of input
        loop
            invariant_except_break
                line_end(s, self.at()) == line_end(s, w),
            invariant
                self.wf(),
                self.text() == s,
                self.section == old(self).section,
                self.opts == old(self).opts,
                self.pos == old(self).pos,
                self.done == old(self).done,
                0 <= w <= self.at() <= s.len(),
            ensures
                self.wf(),
                self.text() == s,
                self.section == old(self).section,
                self.opts == old(self).opts,
                self.pos == old(self).pos,
                self.done == old(self).done,
                self.at() == cmt_end(s, w),
            decreases s.len() - self.at(),
        {
            let ghost p = self.at();
            match self.iter.next() {
                Some(c) => {
                    if is_vertical_ws(&c) {
                        proof {
                            assert(line_end(s, p) == p);
                            assert(self.at() == cmt_end(s, w));
                        }
                        break;
                    }
                },
                None => {
                    proof {
                        assert(self.at() == cmt_end(s, w));
                    }
                    break;
                },
            }
        }
    }

    /// Reads the longest run of key characters from the current
    /// position; rejects a key that starts or ends with a dot.
    fn parse_key(&mut self) -> (r: Result<Vec<char>, Kind>)
        requires
            old(self).wf(),
        ensures
            final(self).wf(),
            final(self).text() == old(self).text(),
            final(self).section == old(self).section,
            final(self).opts == old(self).opts,
            final(self).pos == old(self).pos,
            final(self).done == old(self).done,
            final(self).at() == key_end(old(self).text(), old(self).at(), old(self).opts),
            ({
                let k = old(self).text().subrange(
                    old(self).at(),
                    key_end(old(self).text(), old(self).at(), old(self).opts),
                );
                if dot_ok(k) {
                    r matches Ok(v) && v@ == k
                } else {
                    r == Err::<Vec<char>, Kind>(Kind::InvalidKey)
                }
            }),
    {
        let ghost s = self.text();
        let ghost i0 = self.at();
        let mut key: Vec<char> = Vec::new();
        proof {
            assert(key@ =~= s.subrange(i0, i0));
        }
        loop
            invariant
                self.wf(),
                self.text() == s,
                self.section == old(self).section,
                self.opts == old(self).opts,
                self.pos == old(self).pos,
                self.done == old(self).done,
                0 <= i0 <= self.at() <= s.len(),
                key@ == s.subrange(i0, self.at()),
                key_end(s, self.at(), self.opts) == key_end(s, i0, self.opts),
            ensures
                self.wf(),
                self.text() == s,
                self.section == old(self).section,
                self.opts == old(self).opts,
                self.pos == old(self).pos,
                self.done == old(self).done,
                self.at() == key_end(s, i0, self.opts),
                key@ == s.subrange(i0, key_end(s, i0, self.opts)),
            decreases s.len() - self.at(),
        {
            let pc = self.iter.peek();
            let cont = match pc {
                Some(c) => is_key(c, self.opts),
                None => false,
            };
            if !cont {
                break;
            }
            let ghost p = self.at();
            let ghost k0 = key@;
            self.iter.next();
            key.push(pc.unwrap());
            proof {
                assert(key@ =~= s.subrange(i0, p + 1));
            }
        }
        let invalid = (key.len() > 0 && (key[0] == '.' || key[key.len() - 1] == '.'));
        if invalid {
            // a key cannot start or end with a dot
            Err(Kind::InvalidKey)
        } else {
            Ok(key)
        }
    }

    /// Reads one value: a backtick-delimited raw value with its escape
    /// rule, or a bareword trimmed of surrounding whitespace.
    #[verifier::rlimit(60)]
    fn parse_value(&mut self) -> (r: Result<Vec<char>, Error>)
        requires
            old(self).wf(),
        ensures
            final(self).wf(),
            final(self).text() == old(self).text(),
            final(self).section == old(self).section,
            final(self).opts == old(self).opts,
            final(self).pos == old(self).pos,
            final(self).done == old(self).done,
            ({
                let s = old(self).text();
                let i0 = old(self).at();
                let o = old(self).opts;
                if i0 < s.len() && s[i0] == '`' {
                    match raw_scan(s, i0 + 1) {
                        Some((v, e)) => {
                            &&& r matches Ok(val) && val@ == v
                            &&& final(self).at() == e
                        },
                        None => {
                            &&& r matches Err(er) && er.line as int == cursor_at(s, i0).0
                                && er.col as int == cursor_at(s, i0).1 && er.kind
                                == Kind::UnterminatedRaw
                        },
                    }
                } else {
                    &&& r matches Ok(val) && val@ == trim_spec(
                        s.subrange(i0, value_end(s, i0, o)),
                    )
                    &&& final(self).at() == value_end(s, i0, o)
                }
            }),
    {
        let ghost s = self.text();
        let ghost i0 = self.at();
        // since raw values might have escaped backticks, they have to be
        // collected character by character and cannot be a slice
        let mut value: Vec<char> = Vec::new();
        let is_raw = match self.iter.peek() {
            Some(c) => c == '`',
            None => false,
        };
        if is_raw {
            // raw value: save the starting cursor for diagnostics
            let line = self.iter.line;
            let col = self.iter.col;
            self.iter.next();  // consume backtick
            proof {
                assert(value@.add(Seq::<char>::empty()) =~= value@);
            }
            loop
                invariant_except_break
                    raw_cont(value@, raw_scan(s, self.at())) == raw_scan(s, i0 + 1),
                invariant
                    self.wf(),
                    self.text() == s,
                    s == old(self).text(),
                    self.section == old(self).section,
                    self.opts == old(self).opts,
                    self.pos == old(self).pos,
                    self.done == old(self).done,
                    0 <= i0,
                    i0 == old(self).at(),
                    i0 < s.len(),
                    s[i0] == '`',
                    i0 + 1 <= self.at() <= s.len(),
                    (line as int, col as int) == cursor_at(s, i0),
                ensures
                    self.wf(),
                    self.text() == s,
                    self.section == old(self).section,
                    self.opts == old(self).opts,
                    self.pos == old(self).pos,
                    self.done == old(self).done,
                    raw_scan(s, i0 + 1) == Some((value@, self.at())),
                decreases s.len() - self.at(),
            {
                let ghost p = self.at();
                let pc = self.iter.peek();
                match pc {
                    Some('`') => {
                        // check if this is an escaped backtick
                        self.iter.next();
                        let pc2 = self.iter.peek();
                        let escaped = match pc2 {
                            Some(c2) => c2 == '`',
                            None => false,
                        };
                        if escaped {
                            let ghost v0 = value@;
                            self.iter.next();
                            value.push('`');
                            proof {
                                lemma_raw_cont_push(v0, '`', raw_scan(s, p + 2));
                                assert(raw_scan(s, p) == raw_cont(seq!['`'], raw_scan(s, p + 2)));
                            }
                        } else {
                            // end of the value
                            proof {
                                assert(raw_scan(s, p) == Some((Seq::<char>::empty(), p + 1)));
                                assert(value@.add(Seq::<char>::empty()) =~= value@);
                                assert(raw_scan(s, i0 + 1) == Some((value@, self.at())));
                            }
                            break;
                        }
                    },
                    Some(c) => {
                        let ghost v0 = value@;
                        self.iter.next();
                        value.push(c);
                        proof {
                            lemma_raw_cont_push(v0, c, raw_scan(s, p + 1));
                            assert(raw_scan(s, p) == raw_cont(seq![c], raw_scan(s, p + 1)));
                        }
                    },
                    None => {
                        // the input ended inside the raw value
                        return Err(Error { line, col, kind: Kind::UnterminatedRaw });
                    },
                }
            }
            Ok(value)
        } else {
            // normal value: runs until a comment start or vertical
            // whitespace; surrounding whitespace cannot be part of it
            proof {
                assert(value@ =~= s.subrange(i0, i0));
            }
            loop
                invariant
                    self.wf(),
                    self.text() == s,
                    self.section == old(self).section,
                    self.opts == old(self).opts,
                    self.pos == old(self).pos,
                    self.done == old(self).done,
                    0 <= i0 <= self.at() <= s.len(),
                    value@ == s.subrange(i0, self.at()),
                    value_end(s, self.at(), self.opts) == value_end(s, i0, self.opts),
                ensures
                    self.wf(),
                    self.text() == s,
                    self.section == old(self).section,
                    self.opts == old(self).opts,
                    self.pos == old(self).pos,
                    self.done == old(self).done,
                    self.at() == value_end(s, i0, self.opts),
                    value@ == s.subrange(i0, value_end(s, i0, self.opts)),
                decreases s.len() - self.at(),
            {
                let pc = self.iter.peek();
                let cont = match pc {
                    Some(c) => is_value(c, self.opts),
                    None => false,
                };
                if !cont {
                    break;
                }
                let ghost p = self.at();
                self.iter.next();
                value.push(pc.unwrap());
                proof {
                    assert(value@ =~= s.subrange(i0, p + 1));
                }
            }
            Ok(trim_chars(&value))
        }
    }

    /// Try to parse until the next key/value pair.
    ///
    /// Returns `None` once the input is exhausted. The first error ends
    /// the walk: it is returned once, and every later call returns
    /// `None`.
    #[verifier::rlimit(60)]
    pub fn next(&mut self) -> (r: Option<Result<(String, String), Error>>)
        requires
            old(self).wf(),
        ensures
            final(self).wf(),
            final(self).text() == old(self).text(),
            final(self).opts == old(self).opts,
            old(self).done ==> r is None && *final(self) == *old(self),
            !old(self).done ==> match step(
                old(self).text(),
                old(self).at(),
                old(self).section@,
                old(self).opts,
            ) {
                Step::Done => {
                    // the input is exhausted for good: the scanner rests
                    // at the end of the text, so every later call takes
                    // this same branch
                    &&& r is None
                    &&& final(self).pos is None
                    &&& !final(self).done
                    &&& final(self).at() == final(self).text().len()
                },
                Step::Fail { line, col, kind } => {
                    &&& r matches Some(Err(e)) && e.line as int == line && e.col as int == col
                        && e.kind == kind
                    &&& final(self).done
                    &&& final(self).pos is None
                },
                Step::Pair { key, val, end, section, vline, vcol } => {
                    &&& r matches Some(Ok(p)) && p.0@ == key && p.1@ == val
                    &&& final(self).at() == end
                    &&& final(self).section@ == section
                    &&& final(self).pos matches Some(q) && q.0 as int == vline && q.1 as int
                        == vcol
                    &&& !final(self).done
                },
            },
    {
        if self.done {
            return None;
        }
        self.pos = None;
        let ghost s = self.text();
        let ghost res0 = step(s, self.at(), self.section@, self.opts);
        loop
            invariant
                self.wf(),
                self.text() == s,
                s == old(self).text(),
                self.opts == old(self).opts,
                self.pos is None,
                !self.done,
                !old(self).done,
                0 <= self.at() <= s.len(),
                step(s, self.at(), self.section@, self.opts) == res0,
                res0 == step(old(self).text(), old(self).at(), old(self).section@, old(self).opts),
            decreases s.len() - self.at(),
        {
            let ghost i = self.at();
            let ghost sec = self.section@;
            self.skip_ws();
            let ghost j = self.at();
            proof {
                lemma_ws_end(s, i);
            }
            // we should be at the start of a statement now
            let c = match self.iter.peek() {
                Some(c) => c,
                None => {
                    // the input is exhausted
                    return None;
                },
            };
            if is_comment(c, self.opts) {
                self.skip_comment();
                proof {
                    lemma_line_end(s, j);
                    assert(self.at() == cmt_end(s, j));
                }
            } else if c == '[' {
                // section heading
                self.iter.next();  // consume [

                let line = self.iter.line;
                let col = self.iter.col;
                self.skip_ws();
                let ghost k = self.at();

                // better error message before the closing bracket check
                if self.iter.peek().is_none() {
                    self.done = true;
                    return Some(Err(Error { line, col, kind: Kind::ExpectedSectionEnd }));
                }
                // this key can be empty
                match self.parse_key() {
                    Ok(key) => {
                        self.section = key;
                    },
                    Err(e) => {
                        self.done = true;
                        return Some(Err(Error { line, col, kind: e }));
                    },
                }
                let ghost ke = self.at();

                self.skip_ws();
                let ghost m = self.at();

                let closed = match self.iter.next() {
                    Some(cc) => cc == ']',
                    None => false,
                };
                if !closed {
                    // report the missing bracket at the column the
                    // header began
                    self.done = true;
                    return Some(Err(Error { line, col, kind: Kind::ExpectedSectionEnd }));
                }
                self.skip_comment();
                proof {
                    lemma_ws_end(s, j + 1);
                    lemma_key_end(s, k, self.opts);
                    lemma_ws_end(s, ke);
                    lemma_skip_comment_end(s, m + 1, self.opts);
                    assert(self.at() == skip_comment_end(s, m + 1, self.opts));
                    assert(step(s, i, sec, self.opts) == step(s, self.at(), self.section@, self.opts));
                }
            } else {
                // this should be a key/value pair
                let line = self.iter.line;
                let col = self.iter.col;
                // parse the key; prepend it with the section name if present
                let key = match self.parse_key() {
                    Ok(key) => key,
                    Err(e) => {
                        self.done = true;
                        return Some(Err(Error { line, col, kind: e }));
                    },
                };
                // this key cannot be empty
                if key.len() == 0 {
                    self.done = true;
                    return Some(Err(Error { line, col, kind: Kind::ExpectedKey }));
                }
                // do not prepend an empty section
                let qkey = join_key(&self.section, &key);
                let ghost ke = self.at();

                let line2 = self.iter.line;
                let col2 = self.iter.col;
                self.skip_ws();
                let ghost m = self.at();

                let eq = match self.iter.next() {
                    Some(cc) => cc == '=',
                    None => false,
                };
                if !eq {
                    self.done = true;
                    return Some(Err(Error { line: line2, col: col2, kind: Kind::ExpectedEquals }));
                }
                self.skip_ws();

                let pline = self.iter.line;
                let pcol = self.iter.col;

                let value = match self.parse_value() {
                    Ok(value) => value,
                    Err(e) => {
                        self.done = true;
                        return Some(Err(e));
                    },
                };
                self.skip_comment();

                self.pos = Some((pline, pcol));
                return Some(Ok((string_of(&qkey), string_of(&value))));
            }
        }
    }
}

/// The view of a key/value list as a sequence of character-sequence
/// pairs.
pub open spec fn pairs_view(v: Seq<(String, String)>) -> Seq<(Seq<char>, Seq<char>)> {
    Seq::new(v.len(), |i: int| (v[i].0@, v[i].1@))
}

/// Stores a pair in the key/value list: overwrites the value of the
/// first entry with the same key, or appends a new entry.
fn upsert_pair(acc: &mut Vec<(String, String)>, k: String, v: String)
    ensures
        pairs_view(final(acc)@) == upsert(pairs_view(old(acc)@), (k@, v@)),
{
    let ghost ps = pairs_view(acc@);
    proof {
        lemma_key_index(ps, k@);
    }
    let mut idx: usize = 0;
    loop
        invariant
            acc == old(acc),
            ps == pairs_view(acc@),
            0 <= idx <= acc@.len(),
            forall|j: int| 0 <= j < idx ==> ps[j].0 != k@,
        ensures
            idx as int == key_index(ps, k@),
        decreases acc@.len() - idx,
    {
        if idx < acc.len() {
            if acc[idx].0 == k {
                proof {
                    lemma_key_index(ps, k@);
                    assert(ps[idx as int].0 == k@);
                    assert(idx as int == key_index(ps, k@));
                }
                break;
            }
            idx += 1;
        } else {
            proof {
                lemma_key_index(ps, k@);
                assert(idx as int == key_index(ps, k@));
            }
            break;
        }
    }
    if idx < acc.len() {
        acc.set(idx, (k, v));
        proof {
            assert(pairs_view(acc@) =~= ps.update(idx as int, (k@, v@)));
        }
    } else {
        acc.push((k, v));
        proof {
            assert(pairs_view(acc@) =~= ps.push((k@, v@)));
        }
    }
}

/// Parses CNI format text and returns the resulting key/value store.
/// The [parsing options][Opts] are set to the default values.
///
/// Duplicate keys keep the position of their first occurrence and the
/// value of their last one.
///
/// # Errors
/// Returns an `Err` holding the first syntax error, with its line and
/// column, if the given text is not in a valid CNI format.
pub fn from_str(text: &str) -> (r: Result<Vec<(String, String)>, Error>)
    requires
        text@.len() < usize::MAX,
    ensures
        match parse_doc(text@, Opts { ini: false, more_keys: false }) {
            Ok(ps) => r matches Ok(v) && pairs_view(v@) == fold_pairs(ps),
            Err(e) => r matches Err(er) && er.line as int == e.line && er.col as int == e.col
                && er.kind == e.kind,
        },
{
    from_str_opts(text, Opts { ini: false, more_keys: false })
}

/// Parses CNI format text and returns the resulting key/value store,
/// using the specified options.
///
/// Duplicate keys keep the position of their first occurrence and the
/// value of their last one.
///
/// # Errors
/// Returns an `Err` holding the first syntax error, with its line and
/// column, if the given text is not in a valid CNI format.
#[verifier::rlimit(60)]
pub fn from_str_opts(text: &str, opts: Opts) -> (r: Result<Vec<(String, String)>, Error>)
    requires
        text@.len() < usize::MAX,
    ensures
        match parse_doc(text@, opts) {
            Ok(ps) => r matches Ok(v) && pairs_view(v@) == fold_pairs(ps),
            Err(e) => r matches Err(er) && er.line as int == e.line && er.col as int == e.col
                && er.kind == e.kind,
        },
{
    let ghost s = text@;
    let mut parser = CniParser::new_opts(text, opts);
    let mut acc: Vec<(String, String)> = Vec::new();
    let ghost mut collected: Seq<(Seq<char>, Seq<char>)> = Seq::empty();
    proof {
        assert(pairs_view(acc@) =~= fold_pairs(collected));
    }
    loop
        invariant
            parser.wf(),
            parser.text() == s,
            s == text@,
            parser.opts == opts,
            !parser.done,
            pairs_view(acc@) == fold_pairs(collected),
            parse_doc(s, opts) == (match parse_from(s, parser.at(), parser.section@, opts) {
                Ok(rest) => Ok::<Seq<(Seq<char>, Seq<char>)>, ErrAt>(collected + rest),
                Err(e) => Err(e),
            }),
        decreases s.len() - parser.at(),
    {
        let ghost at0 = parser.at();
        let ghost sec0 = parser.section@;
        let ghost st = step(s, at0, sec0, opts);
        proof {
            lemma_step_progress(s, at0, sec0, opts);
        }
        match parser.next() {
            None => {
                proof {
                    assert(parse_from(s, at0, sec0, opts) == Ok::<_, ErrAt>(
                        Seq::<(Seq<char>, Seq<char>)>::empty(),
                    ));
                    assert(collected + Seq::<(Seq<char>, Seq<char>)>::empty() =~= collected);
                }
                return Ok(acc);
            },
            Some(Ok((k, v))) => {
                let ghost kk = k@;
                let ghost vv = v@;
                upsert_pair(&mut acc, k, v);
                proof {
                    let c0 = collected;
                    collected = c0.push((kk, vv));
                    assert(collected.drop_last() =~= c0);
                    assert(collected.last() == (kk, vv));
                    assert(fold_pairs(collected) == upsert(fold_pairs(c0), (kk, vv)));
                    let end = st->end;
                    let sec1 = st->section;
                    if parse_from(s, end, sec1, opts) is Ok {
                        let rest = parse_from(s, end, sec1, opts)->Ok_0;
                        assert(parse_from(s, at0, sec0, opts) == Ok::<_, ErrAt>(
                            seq![(kk, vv)] + rest,
                        ));
                        assert(c0 + (seq![(kk, vv)] + rest) =~= collected + rest);
                    }
                }
            },
            Some(Err(e)) => {
                return Err(e);
            },
        }
    }
}

/// Removes leading and trailing whitespace from a character sequence.
fn trim_chars(v: &Vec<char>) -> (r: Vec<char>)
    ensures
        r@ == trim_spec(v@),
{
    let ghost s = v@;
    proof {
        lemma_ws_end(s, 0);
        lemma_ws_rend(s, s.len() as int);
    }
    let mut a: usize = 0;
    loop
        invariant
            0 <= a <= s.len(),
            s == v@,
            ws_end(s, a as int) == ws_end(s, 0),
        ensures
            a as int == ws_end(s, 0),
        decreases s.len() - a,
    {
        if a < v.len() && is_space(v[a]) {
            a += 1;
        } else {
            break;
        }
    }
    let mut b: usize = v.len();
    loop
        invariant
            0 <= b <= s.len(),
            s == v@,
            ws_rend(s, b as int) == ws_rend(s, s.len() as int),
        ensures
            b as int == ws_rend(s, s.len() as int),
        decreases b,
    {
        if b > 0 && is_space(v[b - 1]) {
            b -= 1;
        } else {
            break;
        }
    }
    let mut r: Vec<char> = Vec::new();
    if a >= b {
        proof {
            if a as int <= b as int {
                assert(r@ =~= s.subrange(a as int, b as int));
            }
        }
        return r;
    }
    let mut j: usize = a;
    proof {
        assert(r@ =~= s.subrange(a as int, a as int));
    }
    loop
        invariant
            a <= j <= b <= s.len(),
            s == v@,
            r@ == s.subrange(a as int, j as int),
        ensures
            r@ == s.subrange(a as int, b as int),
        decreases b - j,
    {
        if j < b {
            r.push(v[j]);
            proof {
                assert(r@ =~= s.subrange(a as int, j + 1));
            }
            j += 1;
        } else {
            break;
        }
    }
    r
}

/// The key prefixed with the section name and a dot, unless the section
/// is empty.
fn join_key(sec: &Vec<char>, key: &Vec<char>) -> (r: Vec<char>)
    ensures
        r@ == qualify(sec@, key@),
{
    let mut r: Vec<char> = Vec::new();
    if sec.len() == 0 {
        push_all(&mut r, key);
        proof {
            assert(r@ =~= key@);
        }
    } else {
        push_all(&mut r, sec);
        r.push('.');
        push_all(&mut r, key);
        proof {
            assert(r@ =~= sec@.add(seq!['.']).add(key@));
        }
    }
    r
}

} // verus!
