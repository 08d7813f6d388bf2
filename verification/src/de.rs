//! The data model and the decision rules of the typed-deserialization
//! adapter: its error taxonomy, the tree a flat store becomes, and how
//! scalar values are read from strings. The adapter's trait plumbing is
//! outside glue; everything it decides with is here.

use vstd::prelude::*;

use crate::format::first_dot;
use crate::format::has_dot;
use crate::format::lemma_first_dot;
use crate::text::chars_eq;
use crate::text::chars_of;
use crate::text::copy_range;
use crate::text::string_of;

verus! {

/// An error of the deserialization adapter.
#[derive(Clone, Debug, PartialEq)]
pub struct Error {
    /// Line the error is attributed to, counting from 1; 0 when no
    /// position is known.
    pub line: usize,
    /// Column the error is attributed to.
    pub col: usize,
    /// What went wrong.
    pub kind: Kind,
}

/// A kind of deserialization error.
#[derive(Clone, Debug, PartialEq)]
pub enum Kind {
    /// Error in the CNI syntax: expected a `]` to end the section header.
    ExpectedSectionEnd,
    /// Error in the CNI syntax: a key was formatted incorrectly.
    InvalidKey,
    /// Error in the CNI syntax: a key was expected.
    ExpectedKey,
    /// Error in the CNI syntax: an equals sign was expected.
    ExpectedEquals,
    /// Error in the CNI syntax: unterminated raw string literal.
    UnterminatedRaw,
    /// Error in the data representation: malformed integer value.
    Int(String),
    /// Error in the data representation: malformed float value.
    Float(String),
    /// Error in the data representation: malformed boolean value.
    Bool,
    /// Error in the data representation: malformed unit value.
    Unit,
    /// Error in the data representation: malformed char value.
    Char,
    /// Error in the data representation: duplicate key.
    DuplicateKey(String),
    /// Error in the data representation: no more value(s).
    ExpectedValues,
    /// A custom error message.
    Custom(String),
}

/// The parser's error kind carried over into the adapter's taxonomy.
pub open spec fn kind_of_parse(kind: crate::error::Kind) -> Kind {
    match kind {
        crate::error::Kind::ExpectedSectionEnd => Kind::ExpectedSectionEnd,
        crate::error::Kind::InvalidKey => Kind::InvalidKey,
        crate::error::Kind::ExpectedKey => Kind::ExpectedKey,
        crate::error::Kind::ExpectedEquals => Kind::ExpectedEquals,
        crate::error::Kind::UnterminatedRaw => Kind::UnterminatedRaw,
    }
}

impl Kind {
    /// Carries a parser error kind into the adapter's taxonomy.
    pub fn from_parse(kind: crate::error::Kind) -> (r: Kind)
        ensures
            r == kind_of_parse(kind),
    {
        match kind {
            crate::error::Kind::ExpectedSectionEnd => Kind::ExpectedSectionEnd,
            crate::error::Kind::InvalidKey => Kind::InvalidKey,
            crate::error::Kind::ExpectedKey => Kind::ExpectedKey,
            crate::error::Kind::ExpectedEquals => Kind::ExpectedEquals,
            crate::error::Kind::UnterminatedRaw => Kind::UnterminatedRaw,
        }
    }
}

impl Error {
    /// Carries a parser error over, position included.
    pub fn from_parse(err: crate::error::Error) -> (r: Error)
        ensures
            r.line == err.line,
            r.col == err.col,
            r.kind == kind_of_parse(err.kind),
    {
        Error { line: err.line, col: err.col, kind: Kind::from_parse(err.kind) }
    }

    /// A custom error message without a position.
    pub fn custom(msg: String) -> (r: Error)
        ensures
            r.line == 0,
            r.col == 0,
            r.kind == Kind::Custom(msg),
    {
        Error { line: 0, col: 0, kind: Kind::Custom(msg) }
    }
}

/// The nested form of a flat key/value store: a value with the position
/// it was parsed at, or a branch of named subtrees.
pub enum Tree {
    /// A scalar value and its starting position as line and column,
    /// counting from 1.
    Value(String, usize, usize),
    /// A node whose children are named subtrees.
    Branch(Vec<(String, Tree)>),
}

/// The latest position among the top-level values of the trees.
pub open spec fn max_end(vals: Seq<Tree>) -> Option<(usize, usize)>
    decreases vals.len(),
{
    if vals.len() == 0 {
        None
    } else {
        let rest = max_end(vals.drop_last());
        match vals.last() {
            Tree::Value(_, l, c) => later_of(rest, (l, c)),
            Tree::Branch(_) => rest,
        }
    }
}

/// The later of an optional position and a position.
pub open spec fn later_of(a: Option<(usize, usize)>, p: (usize, usize)) -> Option<
    (usize, usize),
> {
    match a {
        None => Some(p),
        Some(q) => if p.0 > q.0 || (p.0 == q.0 && p.1 >= q.1) {
            Some(p)
        } else {
            Some(q)
        },
    }
}

/// Walks one level of the tree: hands out keys and subtree values from
/// back to front, and remembers the latest value position for error
/// reports past the end.
pub struct Deserializer {
    /// The keys of this level, handed out back to front.
    pub keys: Vec<String>,
    /// The subtrees of this level, handed out back to front.
    pub vals: Vec<Tree>,
    /// The position of the last value of this level, if any.
    pub end: Option<(usize, usize)>,
}

impl Deserializer {
    /// Splits one tree level into its keys and values and records the
    /// position to attribute running-out-of-values errors to.
    pub fn new(map: Vec<(String, Tree)>) -> (r: Self)
        ensures
            r.keys@.len() == map@.len(),
            r.vals@.len() == map@.len(),
            forall|i: int|
                0 <= i < map@.len() ==> r.keys@[i] == map@[i].0 && r.vals@[i] == map@[i].1,
            r.end == max_end(r.vals@),
    {
        let ghost full = map@;
        let mut it = map;
        let mut keys: Vec<String> = Vec::new();
        let mut vals: Vec<Tree> = Vec::new();
        let mut end: Option<(usize, usize)> = None;
        proof {
            assert(it@ =~= full.skip(0));
        }
        loop
            invariant
                it@.len() <= full.len(),
                it@ == full.skip(full.len() - it@.len()),
                keys@.len() == full.len() - it@.len(),
                vals@.len() == keys@.len(),
                forall|j: int|
                    0 <= j < keys@.len() ==> keys@[j] == full[j].0 && vals@[j] == full[j].1,
                end == max_end(vals@),
            ensures
                keys@.len() == full.len(),
                vals@.len() == full.len(),
                forall|j: int|
                    0 <= j < full.len() ==> keys@[j] == full[j].0 && vals@[j] == full[j].1,
                end == max_end(vals@),
            decreases it@.len(),
        {
            if it.len() == 0 {
                break;
            }
            let ghost n = full.len() - it@.len();
            let ghost itv0 = it@;
            let ghost vals0 = vals@;
            let (k, t) = it.remove(0);
            proof {
                assert(itv0[0] == full[n as int]);
                assert(it@ =~= full.skip(n + 1));
            }
            let pos = match &t {
                Tree::Value(_, l, c) => Some((*l, *c)),
                Tree::Branch(_) => None,
            };
            keys.push(k);
            vals.push(t);
            match pos {
                Some((l, c)) => {
                    let better = match end {
                        None => true,
                        Some((el, ec)) => l > el || (l == el && c >= ec),
                    };
                    if better {
                        end = Some((l, c));
                    }
                },
                None => {},
            }
            proof {
                assert(vals@.drop_last() =~= vals0);
            }
        }
        Deserializer { keys, vals, end }
    }

    /// Hands out the next value of this level. A branch where a scalar
    /// was needed, or running out of entries, is an error at the
    /// level's last value position.
    pub fn next(&mut self) -> (r: Result<(String, usize, usize), Error>)
        ensures
            final(self).keys == old(self).keys,
            final(self).end == old(self).end,
            old(self).vals@.len() == 0 ==> {
                &&& final(self).vals@ == old(self).vals@
                &&& r matches Err(e) && e.kind == Kind::ExpectedValues && err_pos_ok(
                    e,
                    old(self).end,
                )
            },
            old(self).vals@.len() > 0 ==> {
                &&& final(self).vals@ == old(self).vals@.drop_last()
                &&& match old(self).vals@.last() {
                    Tree::Value(s, l, c) => r == Ok::<(String, usize, usize), Error>((s, l, c)),
                    Tree::Branch(_) => r matches Err(e) && e.kind == Kind::ExpectedValues
                        && err_pos_ok(e, old(self).end),
                }
            },
    {
        match self.vals.pop() {
            Some(t) => match t {
                Tree::Value(s, l, c) => Ok((s, l, c)),
                Tree::Branch(_) => Err(self.no_more()),
            },
            None => Err(self.no_more()),
        }
    }

    /// The running-out-of-values error at this level's last position.
    fn no_more(&self) -> (r: Error)
        ensures
            r.kind == Kind::ExpectedValues,
            err_pos_ok(r, self.end),
    {
        match self.end {
            Some((l, c)) => Error { line: l, col: c, kind: Kind::ExpectedValues },
            None => Error { line: 0, col: 0, kind: Kind::ExpectedValues },
        }
    }
}

/// The error carries the recorded position, or zeros when none is
/// known.
pub open spec fn err_pos_ok(e: Error, end: Option<(usize, usize)>) -> bool {
    match end {
        Some(p) => e.line == p.0 && e.col == p.1,
        None => e.line == 0 && e.col == 0,
    }
}

/// The ASCII-lowercased form of a character.
pub open spec fn lower_ascii(c: char) -> char {
    if c == 'A' {
        'a'
    } else if c == 'B' {
        'b'
    } else if c == 'C' {
        'c'
    } else if c == 'D' {
        'd'
    } else if c == 'E' {
        'e'
    } else if c == 'F' {
        'f'
    } else if c == 'G' {
        'g'
    } else if c == 'H' {
        'h'
    } else if c == 'I' {
        'i'
    } else if c == 'J' {
        'j'
    } else if c == 'K' {
        'k'
    } else if c == 'L' {
        'l'
    } else if c == 'M' {
        'm'
    } else if c == 'N' {
        'n'
    } else if c == 'O' {
        'o'
    } else if c == 'P' {
        'p'
    } else if c == 'Q' {
        'q'
    } else if c == 'R' {
        'r'
    } else if c == 'S' {
        's'
    } else if c == 'T' {
        't'
    } else if c == 'U' {
        'u'
    } else if c == 'V' {
        'v'
    } else if c == 'W' {
        'w'
    } else if c == 'X' {
        'x'
    } else if c == 'Y' {
        'y'
    } else if c == 'Z' {
        'z'
    } else {
        c
    }
}

/// The ASCII-lowercased form of a string.
pub open spec fn lower_seq(v: Seq<char>) -> Seq<char> {
    Seq::new(v.len(), |i: int| lower_ascii(v[i]))
}

/// The words the adapter reads as `true`.
pub open spec fn is_true_word(v: Seq<char>) -> bool {
    v == "1"@ || v == "+"@ || v == "true"@ || v == "yes"@ || v == "on"@ || v == "up"@
}

/// The words the adapter reads as `false`.
pub open spec fn is_false_word(v: Seq<char>) -> bool {
    v == "0"@ || v == "-"@ || v == "false"@ || v == "no"@ || v == "off"@ || v == "down"@
}

/// The ASCII-lowercased form of a character, executable form.
fn lower_ascii_char(c: char) -> (r: char)
    ensures
        r == lower_ascii(c),
{
    match c {
        'A' => 'a',
        'B' => 'b',
        'C' => 'c',
        'D' => 'd',
        'E' => 'e',
        'F' => 'f',
        'G' => 'g',
        'H' => 'h',
        'I' => 'i',
        'J' => 'j',
        'K' => 'k',
        'L' => 'l',
        'M' => 'm',
        'N' => 'n',
        'O' => 'o',
        'P' => 'p',
        'Q' => 'q',
        'R' => 'r',
        'S' => 's',
        'T' => 't',
        'U' => 'u',
        'V' => 'v',
        'W' => 'w',
        'X' => 'x',
        'Y' => 'y',
        'Z' => 'z',
        other => other,
    }
}

/// Reads a boolean the way the adapter does: case-insensitively, from
/// a fixed table of words. Returns `None` exactly when the string is
/// none of them.
pub fn bool_value(v: &str) -> (r: Option<bool>)
    ensures
        is_true_word(lower_seq(v@)) ==> r == Some(true),
        !is_true_word(lower_seq(v@)) && is_false_word(lower_seq(v@)) ==> r == Some(false),
        !is_true_word(lower_seq(v@)) && !is_false_word(lower_seq(v@)) ==> r is None,
{
    let cs = chars_of(v);
    let mut low: Vec<char> = Vec::new();
    let mut i: usize = 0;
    loop
        invariant
            0 <= i <= cs@.len(),
            cs@ == v@,
            low@.len() == i,
            forall|j: int| 0 <= j < i ==> low@[j] == lower_ascii(v@[j]),
        ensures
            low@ == lower_seq(v@),
        decreases cs@.len() - i,
    {
        if i == cs.len() {
            proof {
                assert(low@ =~= lower_seq(v@));
            }
            break;
        }
        low.push(lower_ascii_char(cs[i]));
        i += 1;
    }
    if chars_eq(&low, &chars_of("1")) || chars_eq(&low, &chars_of("+")) || chars_eq(
        &low,
        &chars_of("true"),
    ) || chars_eq(&low, &chars_of("yes")) || chars_eq(&low, &chars_of("on")) || chars_eq(
        &low,
        &chars_of("up"),
    ) {
        Some(true)
    } else if chars_eq(&low, &chars_of("0")) || chars_eq(&low, &chars_of("-")) || chars_eq(
        &low,
        &chars_of("false"),
    ) || chars_eq(&low, &chars_of("no")) || chars_eq(&low, &chars_of("off")) || chars_eq(
        &low,
        &chars_of("down"),
    ) {
        Some(false)
    } else {
        None
    }
}

/// Reads a char the way the adapter does: the string must hold exactly
/// one character.
pub fn char_value(v: &str) -> (r: Option<char>)
    ensures
        v@.len() == 1 ==> r == Some(v@[0]),
        v@.len() != 1 ==> r is None,
{
    let cs = chars_of(v);
    if cs.len() == 1 {
        Some(cs[0])
    } else {
        None
    }
}


/// The view of one gathered entry: its key, value and position.
pub open spec fn entry_view(e: (String, String, usize, usize)) -> (
    Seq<char>,
    Seq<char>,
    usize,
    usize,
) {
    (e.0@, e.1@, e.2, e.3)
}

/// The total length of the keys of the entries; the recursion of
/// [`to_tree`] shrinks it.
pub open spec fn key_len_sum(items: Seq<(String, String, usize, usize)>) -> int
    decreases items.len(),
{
    if items.len() == 0 {
        0
    } else {
        key_len_sum(items.drop_last()) + items.last().0@.len()
    }
}


/// The entries whose keys have no dot, in order: they become the
/// leaves of this tree level.
pub open spec fn level_leaves(items: Seq<(String, String, usize, usize)>) -> Seq<
    (Seq<char>, Seq<char>, usize, usize),
>
    decreases items.len(),
{
    if items.len() == 0 {
        Seq::empty()
    } else {
        let rest = level_leaves(items.drop_first());
        if !has_dot(items[0].0@) {
            seq![entry_view(items[0])].add(rest)
        } else {
            rest
        }
    }
}

/// The first segments of the dotted keys, in first-appearance order
/// and without duplicates: they become the subtrees of this tree
/// level.
pub open spec fn level_sections(items: Seq<(String, String, usize, usize)>) -> Seq<Seq<char>>
    decreases items.len(),
    via level_sections_dec
{
    if items.len() == 0 {
        Seq::empty()
    } else {
        let rest = level_sections(items.drop_last());
        let k = items.last().0@;
        if has_dot(k) && !rest.contains(k.subrange(0, first_dot(k))) {
            rest.push(k.subrange(0, first_dot(k)))
        } else {
            rest
        }
    }
}

#[via_fn]
proof fn level_sections_dec(items: Seq<(String, String, usize, usize)>) {
    if items.len() > 0 {
        lemma_first_dot(items.last().0@);
    }
}

/// The first level of the tree a flat store becomes: every dotless key
/// is a leaf with its value and position, and then one subtree stands
/// for each first segment of the dotted keys, in order of first
/// appearance.
pub open spec fn level_ok(
    items: Seq<(String, String, usize, usize)>,
    children: Seq<(String, Tree)>,
) -> bool {
    let leaves = level_leaves(items);
    let sections = level_sections(items);
    &&& children.len() == leaves.len() + sections.len()
    &&& forall|i: int|
        0 <= i < leaves.len() ==> (#[trigger] children[i]).0@ == leaves[i].0 && (children[i].1
            matches Tree::Value(v, l, c) && v@ == leaves[i].1 && l == leaves[i].2 && c
            == leaves[i].3)
    &&& forall|i: int|
        0 <= i < sections.len() ==> (#[trigger] children[leaves.len() + i]).0@ == sections[i]
            && children[leaves.len() + i].1 is Branch
}


/// The views of the gathered entries.
pub open spec fn entries_view(items: Seq<(String, String, usize, usize)>) -> Seq<
    (Seq<char>, Seq<char>, usize, usize),
> {
    Seq::new(items.len(), |i: int| entry_view(items[i]))
}

/// The leaves a children list holds, viewed; a branch child yields a
/// placeholder that never matches a leaf.
pub open spec fn leaf_view(children: Seq<(String, Tree)>) -> Seq<
    (Seq<char>, Seq<char>, usize, usize),
> {
    Seq::new(
        children.len(),
        |i: int|
            match children[i].1 {
                Tree::Value(v, l, c) => (children[i].0@, v@, l, c),
                Tree::Branch(_) => (children[i].0@, Seq::<char>::empty(), 0usize, 0usize),
            },
    )
}

/// The entries below one section of this level, their keys stripped of
/// the section prefix and its dot.
pub open spec fn bucket_spec(items: Seq<(String, String, usize, usize)>, name: Seq<char>) -> Seq<
    (Seq<char>, Seq<char>, usize, usize),
>
    decreases items.len(),
    via bucket_spec_dec
{
    if items.len() == 0 {
        Seq::empty()
    } else {
        let rest = bucket_spec(items.drop_first(), name);
        let k = items[0].0@;
        if has_dot(k) && k.subrange(0, first_dot(k)) == name {
            seq![(k.skip(first_dot(k) + 1), items[0].1@, items[0].2, items[0].3)].add(rest)
        } else {
            rest
        }
    }
}

#[via_fn]
proof fn bucket_spec_dec(items: Seq<(String, String, usize, usize)>, name: Seq<char>) {
    if items.len() > 0 {
        lemma_first_dot(items[0].0@);
    }
}

/// The total key length of viewed entries.
pub open spec fn vkey_sum(vs: Seq<(Seq<char>, Seq<char>, usize, usize)>) -> int
    decreases vs.len(),
{
    if vs.len() == 0 {
        0
    } else {
        vkey_sum(vs.drop_first()) + vs[0].0.len()
    }
}

proof fn lemma_vkey_nonneg(vs: Seq<(Seq<char>, Seq<char>, usize, usize)>)
    ensures
        vkey_sum(vs) >= 0,
    decreases vs.len(),
{
    if vs.len() > 0 {
        lemma_vkey_nonneg(vs.drop_first());
    }
}

/// Bucketing strips at least one character from each kept key and
/// keeps no more keys than there are.
proof fn lemma_bucket_sum(items: Seq<(String, String, usize, usize)>, name: Seq<char>)
    ensures
        vkey_sum(bucket_spec(items, name)) + bucket_spec(items, name).len() <= vkey_sum(
            entries_view(items),
        ),
        bucket_spec(items, name).len() <= items.len(),
    decreases items.len(),
{
    if items.len() == 0 {
    } else {
        lemma_bucket_sum(items.drop_first(), name);
        lemma_first_dot(items[0].0@);
        assert(entries_view(items).drop_first() =~= entries_view(items.drop_first()));
        assert(entries_view(items)[0] == entry_view(items[0]));
        let k = items[0].0@;
        if has_dot(k) && k.subrange(0, first_dot(k)) == name {
            let b = bucket_spec(items, name);
            assert(b.drop_first() =~= bucket_spec(items.drop_first(), name));
            assert(first_dot(k) < k.len()) by {
                if first_dot(k) == k.len() {
                    let w = choose|w: int| 0 <= w < k.len() && k[w] == '.';
                    assert(k[w] != '.');
                }
            }
            assert(b[0].0.len() == k.len() - first_dot(k) - 1);
        }
    }
}

/// The key measure grows by the appended entry's key length.
proof fn lemma_vkey_push(
    vs: Seq<(Seq<char>, Seq<char>, usize, usize)>,
    e: (Seq<char>, Seq<char>, usize, usize),
)
    ensures
        vkey_sum(vs.push(e)) == vkey_sum(vs) + e.0.len(),
    decreases vs.len(),
{
    if vs.len() == 0 {
        assert(vs.push(e).len() == 1);
        assert(vs.push(e)[0] == e);
        assert(vs.push(e).drop_first() =~= Seq::<(Seq<char>, Seq<char>, usize, usize)>::empty());
        assert(vkey_sum(vs.push(e)) == vkey_sum(vs.push(e).drop_first()) + vs.push(e)[0].0.len());
        assert(vkey_sum(vs.push(e).drop_first()) == 0);
        assert(vkey_sum(vs) == 0);
        assert(vkey_sum(vs.push(e)) == e.0.len());
    } else {
        lemma_vkey_push(vs.drop_first(), e);
        assert(vs.push(e).drop_first() =~= vs.drop_first().push(e));
        assert(vs.push(e)[0] == vs[0]);
        assert(vkey_sum(vs.push(e)) == vkey_sum(vs.drop_first().push(e)) + vs[0].0.len());
        assert(vkey_sum(vs.drop_first().push(e)) == vkey_sum(vs.drop_first()) + e.0.len());
        assert(vkey_sum(vs) == vkey_sum(vs.drop_first()) + vs[0].0.len());
    }
}

/// The two key measures agree.
proof fn lemma_key_sum_view(items: Seq<(String, String, usize, usize)>)
    ensures
        key_len_sum(items) == vkey_sum(entries_view(items)),
    decreases items.len(),
{
    if items.len() > 0 {
        lemma_key_sum_view(items.drop_last());
        assert(entries_view(items) =~= entries_view(items.drop_last()).push(
            entry_view(items.last()),
        ));
        lemma_vkey_push(entries_view(items.drop_last()), entry_view(items.last()));
    }
}

/// Collects the entries below one section of this level, their keys
/// stripped of the section prefix and its dot.
fn section_bucket(items: &Vec<(String, String, usize, usize)>, name: &Vec<char>) -> (r: Vec<
    (String, String, usize, usize),
>)
    ensures
        entries_view(r@) == bucket_spec(items@, name@),
{
    let ghost full = items@;
    let mut r: Vec<(String, String, usize, usize)> = Vec::new();
    let mut i: usize = 0;
    proof {
        assert(full.skip(0) =~= full);
        assert(entries_view(r@) =~= Seq::<(Seq<char>, Seq<char>, usize, usize)>::empty());
    }
    loop
        invariant
            0 <= i <= full.len(),
            full == items@,
            bucket_spec(full, name@) == entries_view(r@).add(
                bucket_spec(full.skip(i as int), name@),
            ),
        ensures
            entries_view(r@) == bucket_spec(full, name@),
        decreases full.len() - i,
    {
        let ghost suffix = full.skip(i as int);
        let ghost acc0 = entries_view(r@);
        if i == items.len() {
            proof {
                assert(suffix.len() == 0);
                assert(bucket_spec(suffix, name@) == Seq::<
                    (Seq<char>, Seq<char>, usize, usize),
                >::empty());
                assert(acc0.add(bucket_spec(suffix, name@)) =~= acc0);
            }
            break;
        }
        let kc = chars_of(items[i].0.as_str());
        proof {
            assert(suffix[0] == full[i as int]);
            assert(suffix.drop_first() =~= full.skip(i + 1));
            assert(kc@.subrange(0, kc@.len() as int) =~= kc@);
            lemma_first_dot(kc@);
        }
        let d = crate::format::find_dot(&kc, 0);
        if d < kc.len() {
            let sect = copy_range(&kc, 0, d);
            proof {
                assert(kc@[d as int] == '.');
                assert(has_dot(kc@));
            }
            if chars_eq(&sect, name) {
                let rest = copy_range(&kc, d + 1, kc.len());
                let ghost r0 = r@;
                let ghost e: (Seq<char>, Seq<char>, usize, usize) = (
                    kc@.skip(first_dot(kc@) + 1),
                    full[i as int].1@,
                    full[i as int].2,
                    full[i as int].3,
                );
                r.push((string_of(&rest), items[i].1.clone(), items[i].2, items[i].3));
                proof {
                    assert(rest@ =~= kc@.skip(first_dot(kc@) + 1));
                    assert(entries_view(r0).len() == r0.len());
                    assert forall|x: int| 0 <= x < r@.len() implies entries_view(r@)[x]
                        == acc0.push(e)[x] by {
                        if x < r0.len() {
                            assert(r@[x] == r0[x]);
                            assert(entries_view(r0)[x] == entry_view(r0[x]));
                        }
                    }
                    assert(entries_view(r@) =~= acc0.push(e));
                    assert(bucket_spec(suffix, name@) == seq![e].add(
                        bucket_spec(full.skip(i + 1), name@),
                    ));
                    assert(acc0.push(e).add(bucket_spec(full.skip(i + 1), name@)) =~= acc0.add(
                        bucket_spec(suffix, name@),
                    ));
                }
            } else {
                proof {
                    assert(kc@.subrange(0, first_dot(kc@)) != name@);
                }
            }
        } else {
            proof {
                assert(!has_dot(kc@)) by {
                    if has_dot(kc@) {
                        let w = choose|w: int| 0 <= w < kc@.len() && kc@[w] == '.';
                        assert(kc@[w] != '.');
                    }
                }
            }
        }
        i += 1;
    }
    r
}

/// Turns the flat store with positions into the nested tree the walker
/// consumes: dotless keys become leaves of this level, in order, and
/// one subtree follows for each first segment of the dotted keys, in
/// order of first appearance. The contract pins this level completely;
/// each subtree is built by the same walk from its bucket, whose
/// contents [`bucket_spec`] pins.
#[verifier::rlimit(100)]
pub fn to_tree(items: &Vec<(String, String, usize, usize)>) -> (r: Tree)
    ensures
        r is Branch,
        level_ok(items@, r->Branch_0@),
    decreases key_len_sum(items@),
{
    let ghost full = items@;
    let mut children: Vec<(String, Tree)> = Vec::new();
    let mut names: Vec<String> = Vec::new();
    let mut i: usize = 0;
    proof {
        assert(full.skip(0) =~= full);
        assert(crate::api::names_view(names@) =~= level_sections(full.subrange(0, 0)));
        assert(leaf_view(children@) =~= Seq::<(Seq<char>, Seq<char>, usize, usize)>::empty());
        assert(level_leaves(full) == leaf_view(children@).add(level_leaves(full.skip(0))));
    }
    loop
        invariant
            0 <= i <= full.len(),
            full == items@,
            forall|x: int| 0 <= x < children@.len() ==> (#[trigger] children@[x]).1 is Value,
            level_leaves(full) == leaf_view(children@).add(level_leaves(full.skip(i as int))),
            crate::api::names_view(names@) == level_sections(full.subrange(0, i as int)),
        ensures
            forall|x: int| 0 <= x < children@.len() ==> (#[trigger] children@[x]).1 is Value,
            leaf_view(children@) == level_leaves(full),
            crate::api::names_view(names@) == level_sections(full),
        decreases full.len() - i,
    {
        let ghost suffix = full.skip(i as int);
        let ghost acc0 = leaf_view(children@);
        let ghost names0 = crate::api::names_view(names@);
        if i == items.len() {
            proof {
                assert(suffix.len() == 0);
                assert(level_leaves(suffix) == Seq::<
                    (Seq<char>, Seq<char>, usize, usize),
                >::empty());
                assert(acc0.add(level_leaves(suffix)) =~= acc0);
                assert(full.subrange(0, full.len() as int) =~= full);
            }
            break;
        }
        let kc = chars_of(items[i].0.as_str());
        proof {
            assert(suffix[0] == full[i as int]);
            assert(suffix.drop_first() =~= full.skip(i + 1));
            assert(kc@.subrange(0, kc@.len() as int) =~= kc@);
            assert(full.subrange(0, i + 1).drop_last() =~= full.subrange(0, i as int));
            assert(full.subrange(0, i + 1).last() == full[i as int]);
            lemma_first_dot(kc@);
        }
        let d = crate::format::find_dot(&kc, 0);
        if d == kc.len() {
            // a dotless key: a leaf of this level
            proof {
                assert(!has_dot(kc@)) by {
                    if has_dot(kc@) {
                        let w = choose|w: int| 0 <= w < kc@.len() && kc@[w] == '.';
                        assert(kc@[w] != '.');
                    }
                }
            }
            let ghost ch0 = children@;
            children.push((
                items[i].0.clone(),
                Tree::Value(items[i].1.clone(), items[i].2, items[i].3),
            ));
            proof {
                assert(leaf_view(ch0).len() == ch0.len());
                assert forall|x: int| 0 <= x < children@.len() implies leaf_view(children@)[x]
                    == acc0.push(entry_view(full[i as int]))[x] by {
                    if x < ch0.len() {
                        assert(children@[x] == ch0[x]);
                        assert(leaf_view(ch0)[x] == acc0[x]);
                    }
                }
                assert(leaf_view(children@) =~= acc0.push(entry_view(full[i as int])));
                assert(level_leaves(suffix) == seq![entry_view(full[i as int])].add(
                    level_leaves(full.skip(i + 1)),
                ));
                assert(acc0.push(entry_view(full[i as int])).add(level_leaves(full.skip(i + 1)))
                    =~= acc0.add(level_leaves(suffix)));
                assert(level_sections(full.subrange(0, i + 1)) == names0);
            }
        } else {
            // a dotted key: remember its first segment once
            proof {
                assert(kc@[d as int] == '.');
                assert(has_dot(kc@));
            }
            let sect = copy_range(&kc, 0, d);
            let mut seen = false;
            let mut j: usize = 0;
            loop
                invariant
                    0 <= j <= names@.len(),
                    names0 == crate::api::names_view(names@),
                    sect@ == kc@.subrange(0, first_dot(kc@)),
                    seen ==> names0.contains(sect@),
                    !seen ==> forall|y: int| 0 <= y < j ==> names0[y] != sect@,
                ensures
                    names0 == crate::api::names_view(names@),
                    seen == names0.contains(sect@),
                decreases names@.len() - j,
            {
                if j == names.len() {
                    proof {
                        if !seen && names0.contains(sect@) {
                            let w = choose|w: int| 0 <= w < names0.len() && names0[w] == sect@;
                        }
                    }
                    break;
                }
                let nc = chars_of(names[j].as_str());
                if chars_eq(&nc, &sect) {
                    seen = true;
                    proof {
                        assert(names0[j as int] == names@[j as int]@);
                        assert(names0.contains(sect@));
                    }
                    break;
                }
                proof {
                    assert(names0[j as int] == names@[j as int]@);
                }
                j += 1;
            }
            if !seen {
                let ghost ns0 = names@;
                names.push(string_of(&sect));
                proof {
                    assert(crate::api::names_view(ns0).len() == ns0.len());
                    assert forall|x: int| 0 <= x < names@.len() implies crate::api::names_view(
                        names@,
                    )[x] == names0.push(sect@)[x] by {
                        if x < ns0.len() {
                            assert(names@[x] == ns0[x]);
                        }
                    }
                    assert(crate::api::names_view(names@) =~= names0.push(sect@));
                    assert(level_sections(full.subrange(0, i + 1)) == names0.push(
                        kc@.subrange(0, first_dot(kc@)),
                    ));
                }
            } else {
                proof {
                    assert(level_sections(full.subrange(0, i + 1)) == names0);
                }
            }
            proof {
                assert(level_leaves(suffix) == level_leaves(full.skip(i + 1)));
            }
        }
        i += 1;
    }
    // build one subtree per section from its bucketed entries
    let ghost nsec = crate::api::names_view(names@);
    let ghost nleaves = children@.len() as int;
    let mut j: usize = 0;
    proof {
        lemma_key_sum_view(full);
        assert(children@.subrange(0, nleaves) =~= children@);
    }
    loop
        invariant
            0 <= j <= names@.len(),
            full == items@,
            nsec == crate::api::names_view(names@),
            nsec.len() == names@.len(),
            children@.len() == nleaves + j,
            0 <= nleaves,
            leaf_view(children@.subrange(0, nleaves)) == level_leaves(full),
            forall|x: int| 0 <= x < nleaves ==> (#[trigger] children@[x]).1 is Value,
            forall|x: int|
                0 <= x < j ==> (#[trigger] children@[nleaves + x]).0@ == nsec[x] && children@[
                    nleaves + x
                ].1 is Branch,
            key_len_sum(items@) == vkey_sum(entries_view(items@)),
        ensures
            children@.len() == nleaves + nsec.len(),
            leaf_view(children@.subrange(0, nleaves)) == level_leaves(full),
            forall|x: int| 0 <= x < nleaves ==> (#[trigger] children@[x]).1 is Value,
            forall|x: int|
                0 <= x < nsec.len() ==> (#[trigger] children@[nleaves + x]).0@ == nsec[x]
                    && children@[nleaves + x].1 is Branch,
        decreases names@.len() - j,
    {
        if j == names.len() {
            break;
        }
        let nc = chars_of(names[j].as_str());
        let bucket = section_bucket(items, &nc);
        proof {
            lemma_bucket_sum(full, nc@);
            lemma_key_sum_view(bucket@);
            lemma_vkey_nonneg(entries_view(bucket@));
        }
        let sub: Tree = if bucket.len() > 0 {
            proof {
                assert(entries_view(bucket@).len() == bucket@.len());
                assert(key_len_sum(bucket@) < key_len_sum(items@));
                assert(key_len_sum(bucket@) >= 0);
            }
            to_tree(&bucket)
        } else {
            Tree::Branch(Vec::new())
        };
        let ghost ch0 = children@;
        children.push((names[j].clone(), sub));
        proof {
            assert(nsec[j as int] == names@[j as int]@);
            assert forall|x: int| 0 <= x < nleaves implies children@.subrange(0, nleaves)[x]
                == ch0.subrange(0, nleaves)[x] by {
                assert(children@[x] == ch0[x]);
            }
            assert(children@.subrange(0, nleaves) =~= ch0.subrange(0, nleaves));
            assert forall|x: int| 0 <= x < level_leaves(full).len() implies leaf_view(
                children@.subrange(0, nleaves),
            )[x] == level_leaves(full)[x] by {
                assert(leaf_view(ch0.subrange(0, nleaves))[x] == level_leaves(full)[x]);
            }
            assert(leaf_view(children@.subrange(0, nleaves)) =~= level_leaves(full));
        }
        j += 1;
    }
    let r = Tree::Branch(children);
    proof {
        let ch = r->Branch_0@;
        let leaves = level_leaves(full);
        assert(leaf_view(ch.subrange(0, nleaves)).len() == ch.subrange(0, nleaves).len());
        assert(nleaves == leaves.len());
        assert forall|x: int| 0 <= x < leaves.len() implies (#[trigger] ch[x]).0@ == leaves[x].0
            && (ch[x].1 matches Tree::Value(v, l, c) && v@ == leaves[x].1 && l == leaves[x].2
            && c == leaves[x].3) by {
            assert(ch.subrange(0, nleaves)[x] == ch[x]);
            assert(leaf_view(ch.subrange(0, nleaves))[x] == leaves[x]);
            assert(ch[x].1 is Value);
        }
        assert(level_ok(full, ch));
    }
    r
}

/// Whether some earlier entry holds the same key as entry `j`.
pub open spec fn dup_at(items: Seq<(String, String, usize, usize)>, j: int) -> bool {
    exists|i: int| 0 <= i < j && items[i].0@ == items[j].0@
}

/// Checks the gathered entries for duplicate keys, which the adapter
/// treats as an error even though the format itself allows them.
/// Returns the error for the first duplicate, at that entry's value
/// position.
pub fn check_unique(items: &Vec<(String, String, usize, usize)>) -> (r: Result<(), Error>)
    ensures
        match r {
            Ok(_) => forall|j: int| 0 <= j < items@.len() ==> !dup_at(items@, j),
            Err(e) => exists|j: int|
                #![auto]
                0 <= j < items@.len() && dup_at(items@, j) && (forall|j2: int|
                    0 <= j2 < j ==> !dup_at(items@, j2)) && e.line == items@[j].2 && e.col
                    == items@[j].3 && (e.kind matches Kind::DuplicateKey(k) && k@
                    == items@[j].0@),
        },
{
    let mut j: usize = 0;
    loop
        invariant
            0 <= j <= items@.len(),
            forall|j2: int| 0 <= j2 < j ==> !dup_at(items@, j2),
        ensures
            forall|j2: int| 0 <= j2 < items@.len() ==> !dup_at(items@, j2),
        decreases items@.len() - j,
    {
        if j == items.len() {
            break;
        }
        let mut i: usize = 0;
        loop
            invariant
                0 <= i <= j < items@.len(),
                forall|i2: int| 0 <= i2 < i ==> items@[i2].0@ != items@[j as int].0@,
                forall|j2: int| 0 <= j2 < j ==> !dup_at(items@, j2),
            ensures
                !dup_at(items@, j as int),
            decreases j - i,
        {
            if i == j {
                break;
            }
            if items[i].0 == items[j].0 {
                let e = Error {
                    line: items[j].2,
                    col: items[j].3,
                    kind: Kind::DuplicateKey(items[j].0.clone()),
                };
                proof {
                    assert(items@[i as int].0@ == items@[j as int].0@);
                    assert(dup_at(items@, j as int));
                }
                return Err(e);
            }
            i += 1;
        }
        j += 1;
    }
    Ok(())
}

} // verus!
