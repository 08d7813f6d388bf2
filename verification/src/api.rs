//! The hierarchical query layer that the CNI specification recommends:
//! filtering a flat key/value store by section prefix, and listing
//! subsection names.

use vstd::prelude::*;

use crate::format::has_dot;
use crate::format::lex_cmp;
use crate::format::lex_cmp_chars;
use crate::format::find_dot;
use crate::parser::pairs_view;
use crate::text::chars_of;
use crate::text::copy_range;
use crate::text::string_of;

verus! {

/// `p` is a prefix of `k`.
pub open spec fn starts_with(k: Seq<char>, p: Seq<char>) -> bool {
    k.len() >= p.len() && k.subrange(0, p.len() as int) == p
}

/// The key lies below the (non-empty) section: the section name is a
/// proper prefix, followed by a dot.
pub open spec fn in_tree(k: Seq<char>, sec: Seq<char>) -> bool {
    k.len() > sec.len() && k.subrange(0, sec.len() as int) == sec && k[sec.len() as int] == '.'
}

/// The key with the section prefix and its dot removed.
pub open spec fn strip_sec(k: Seq<char>, sec: Seq<char>) -> Seq<char> {
    k.skip(sec.len() + 1 as int)
}

/// The characters of `k` from position `n` on; empty when `n` lies past
/// the end.
pub open spec fn tail_from(k: Seq<char>, n: int) -> Seq<char> {
    if 0 <= n <= k.len() {
        k.skip(n)
    } else {
        Seq::empty()
    }
}

/// What `sub_tree` returns: every entry below the section, with the
/// prefix stripped; the empty section returns the whole store.
pub open spec fn sub_tree_spec(ps: Seq<(Seq<char>, Seq<char>)>, sec: Seq<char>) -> Seq<
    (Seq<char>, Seq<char>),
>
    decreases ps.len(),
{
    if ps.len() == 0 {
        Seq::empty()
    } else {
        let rest = sub_tree_spec(ps.drop_first(), sec);
        let (k, v) = ps[0];
        if sec.len() == 0 {
            seq![(k, v)].add(rest)
        } else if in_tree(k, sec) {
            seq![(strip_sec(k, sec), v)].add(rest)
        } else {
            rest
        }
    }
}

/// What `sub_leaves` returns: like `sub_tree`, but only entries whose
/// stripped key has no dot of its own.
pub open spec fn sub_leaves_spec(ps: Seq<(Seq<char>, Seq<char>)>, sec: Seq<char>) -> Seq<
    (Seq<char>, Seq<char>),
>
    decreases ps.len(),
{
    if ps.len() == 0 {
        Seq::empty()
    } else {
        let rest = sub_leaves_spec(ps.drop_first(), sec);
        let (k, v) = ps[0];
        if sec.len() == 0 && !has_dot(k) {
            seq![(k, v)].add(rest)
        } else if sec.len() > 0 && in_tree(k, sec) && !has_dot(strip_sec(k, sec)) {
            seq![(strip_sec(k, sec), v)].add(rest)
        } else {
            rest
        }
    }
}

/// What `walk_tree` returns: every entry below the section, keys kept
/// whole.
pub open spec fn walk_tree_spec(ps: Seq<(Seq<char>, Seq<char>)>, sec: Seq<char>) -> Seq<
    (Seq<char>, Seq<char>),
>
    decreases ps.len(),
{
    if ps.len() == 0 {
        Seq::empty()
    } else {
        let rest = walk_tree_spec(ps.drop_first(), sec);
        let (k, v) = ps[0];
        if sec.len() == 0 || in_tree(k, sec) {
            seq![(k, v)].add(rest)
        } else {
            rest
        }
    }
}

/// What `walk_leaves` returns: every direct child of the section, keys
/// kept whole.
pub open spec fn walk_leaves_spec(ps: Seq<(Seq<char>, Seq<char>)>, sec: Seq<char>) -> Seq<
    (Seq<char>, Seq<char>),
>
    decreases ps.len(),
{
    if ps.len() == 0 {
        Seq::empty()
    } else {
        let rest = walk_leaves_spec(ps.drop_first(), sec);
        let (k, v) = ps[0];
        if (sec.len() == 0 || in_tree(k, sec)) && !has_dot(tail_from(k, sec.len() + 1 as int)) {
            seq![(k, v)].add(rest)
        } else {
            rest
        }
    }
}

/// The view of a list of section names.
pub open spec fn names_view(v: Seq<String>) -> Seq<Seq<char>> {
    Seq::new(v.len(), |i: int| v[i]@)
}

/// The view of a list of section names held as character vectors.
pub open spec fn cnames_view(v: Seq<Vec<char>>) -> Seq<Seq<char>> {
    Seq::new(v.len(), |i: int| v[i]@)
}

/// The position where `t` belongs in the sorted name list: the first
/// entry that does not come before it.
pub open spec fn name_pos(xs: Seq<Seq<char>>, t: Seq<char>) -> int
    decreases xs.len(),
{
    if xs.len() == 0 {
        0
    } else if lex_cmp(xs[0], t) >= 0 {
        0
    } else {
        1 + name_pos(xs.drop_first(), t)
    }
}

/// A sorted name list with `t` added, unless an equal name already
/// stands where it belongs.
pub open spec fn insert_name_spec(xs: Seq<Seq<char>>, t: Seq<char>) -> Seq<Seq<char>> {
    let i = name_pos(xs, t);
    if i < xs.len() && lex_cmp(xs[i], t) == 0 {
        xs
    } else {
        xs.insert(i, t)
    }
}

/// Adds, for every dot of `kk` at or after `d`, the name that ends just
/// before that dot.
pub open spec fn add_dot_prefixes(kk: Seq<char>, d: int, acc: Seq<Seq<char>>) -> Seq<Seq<char>>
    decreases kk.len() - d,
    when 0 <= d
{
    if d >= kk.len() {
        acc
    } else if kk[d] == '.' {
        add_dot_prefixes(kk, d + 1, insert_name_spec(acc, kk.subrange(0, d)))
    } else {
        add_dot_prefixes(kk, d + 1, acc)
    }
}

/// The sorted names of all subsections of `sec`: for every key below
/// `sec`, every prefix of the stripped key that ends just before a dot.
pub open spec fn section_tree_spec(
    ps: Seq<(Seq<char>, Seq<char>)>,
    sec: Seq<char>,
    acc: Seq<Seq<char>>,
) -> Seq<Seq<char>>
    decreases ps.len(),
{
    if ps.len() == 0 {
        acc
    } else {
        let k = ps[0].0;
        let acc2 = if sec.len() == 0 {
            add_dot_prefixes(k, 0, acc)
        } else if in_tree(k, sec) {
            add_dot_prefixes(strip_sec(k, sec), 0, acc)
        } else {
            acc
        };
        section_tree_spec(ps.drop_first(), sec, acc2)
    }
}

/// One key's contribution to `section_leaves`: the part before its
/// first dot, but only when no further dot follows.
pub open spec fn add_leaf_prefix(kk: Seq<char>, acc: Seq<Seq<char>>) -> Seq<Seq<char>> {
    let d = crate::format::first_dot(kk);
    if d < kk.len() && !has_dot(tail_from(kk, d + 1)) {
        insert_name_spec(acc, kk.subrange(0, d))
    } else {
        acc
    }
}

/// The sorted names of the direct subsections of `sec`.
pub open spec fn section_leaves_spec(
    ps: Seq<(Seq<char>, Seq<char>)>,
    sec: Seq<char>,
    acc: Seq<Seq<char>>,
) -> Seq<Seq<char>>
    decreases ps.len(),
{
    if ps.len() == 0 {
        acc
    } else {
        let k = ps[0].0;
        let acc2 = if sec.len() == 0 {
            add_leaf_prefix(k, acc)
        } else if in_tree(k, sec) {
            add_leaf_prefix(strip_sec(k, sec), acc)
        } else {
            acc
        };
        section_leaves_spec(ps.drop_first(), sec, acc2)
    }
}

/// `p` is a prefix of `k`, executable form.
pub(crate) fn starts_with_chars(k: &Vec<char>, p: &Vec<char>) -> (r: bool)
    ensures
        r == starts_with(k@, p@),
{
    if k.len() < p.len() {
        return false;
    }
    let mut i: usize = 0;
    loop
        invariant
            0 <= i <= p@.len() <= k@.len(),
            forall|j: int| 0 <= j < i ==> k@[j] == p@[j],
        decreases p@.len() - i,
    {
        if i < p.len() {
            if k[i] != p[i] {
                proof {
                    assert(k@.subrange(0, p@.len() as int)[i as int] == k@[i as int]);
                }
                return false;
            }
            i += 1;
        } else {
            proof {
                assert(k@.subrange(0, p@.len() as int) =~= p@);
            }
            return true;
        }
    }
}

/// The key lies below the non-empty section, executable form.
fn in_tree_chars(k: &Vec<char>, sec: &Vec<char>) -> (r: bool)
    ensures
        r == in_tree(k@, sec@),
{
    if k.len() > sec.len() && starts_with_chars(k, sec) {
        k[sec.len()] == '.'
    } else {
        false
    }
}

/// Whether the character vector holds a dot at or after `from`; `from`
/// may lie past the end.
pub(crate) fn dotted_from(k: &Vec<char>, from: usize) -> (r: bool)
    ensures
        r == has_dot(tail_from(k@, from as int)),
{
    let ghost suf = tail_from(k@, from as int);
    if from >= k.len() {
        if from == k.len() {
            proof {
                assert(suf.len() == 0);
            }
        }
        return false;
    }
    let mut i: usize = from;
    loop
        invariant
            from <= i <= k@.len(),
            suf == k@.skip(from as int),
            forall|j: int| from <= j < i ==> k@[j] != '.',
        decreases k@.len() - i,
    {
        if i < k.len() {
            if k[i] == '.' {
                proof {
                    assert(suf[i - from] == k@[i as int]);
                }
                return true;
            }
            i += 1;
        } else {
            proof {
                assert forall|j: int| 0 <= j < suf.len() implies suf[j] != '.' by {
                    assert(suf[j] == k@[from + j]);
                }
            }
            return false;
        }
    }
}

/// Whether the entry lies below the section (everything lies below the
/// top level).
pub open spec fn key_below(p: (Seq<char>, Seq<char>), sec: Seq<char>) -> bool {
    sec.len() == 0 || in_tree(p.0, sec)
}

/// The entry's key as seen from inside the section.
pub open spec fn below_key(p: (Seq<char>, Seq<char>), sec: Seq<char>) -> Seq<char> {
    if sec.len() == 0 {
        p.0
    } else {
        strip_sec(p.0, sec)
    }
}

/// `q` names a subsection of `sec`: some key below `sec` goes on past
/// `q` with a dot.
pub open spec fn is_tree_section(
    ps: Seq<(Seq<char>, Seq<char>)>,
    sec: Seq<char>,
    q: Seq<char>,
) -> bool {
    exists|i: int, j: int|
        0 <= i < ps.len() && key_below(ps[i], sec) && 0 <= j < below_key(ps[i], sec).len()
            && below_key(ps[i], sec)[j] == '.' && q == #[trigger] below_key(ps[i], sec).subrange(
            0,
            j,
        )
}

/// `q` names a direct subsection of `sec`: some key below `sec` has a
/// dot, no second one after it, and `q` stands before it.
pub open spec fn is_leaf_section(
    ps: Seq<(Seq<char>, Seq<char>)>,
    sec: Seq<char>,
    q: Seq<char>,
) -> bool {
    exists|i: int|
        #![trigger below_key(ps[i], sec)]
        0 <= i < ps.len() && key_below(ps[i], sec) && {
            let kk = below_key(ps[i], sec);
            let d = crate::format::first_dot(kk);
            d < kk.len() && !has_dot(tail_from(kk, d + 1)) && q == kk.subrange(0, d)
        }
}

/// Sorted insertion adds exactly the new name.
proof fn lemma_insert_name_elems(xs: Seq<Seq<char>>, t: Seq<char>)
    ensures
        forall|q: Seq<char>|
            #[trigger] insert_name_spec(xs, t).contains(q) <==> (xs.contains(q) || q == t),
{
    lemma_name_pos(xs, t);
    let pos = name_pos(xs, t);
    let ys = insert_name_spec(xs, t);
    if pos < xs.len() && lex_cmp(xs[pos], t) == 0 {
        crate::format::lemma_lex_zero(xs[pos], t);
        assert(xs.contains(xs[pos]));
        assert forall|q: Seq<char>| #[trigger]
            ys.contains(q) <==> (xs.contains(q) || q == t) by {}
    } else {
        assert forall|q: Seq<char>| #[trigger]
            ys.contains(q) <==> (xs.contains(q) || q == t) by {
            if ys.contains(q) {
                let w = choose|w: int| 0 <= w < ys.len() && ys[w] == q;
                if w < pos {
                    assert(xs[w] == q);
                    assert(xs.contains(q));
                } else if w == pos {
                    assert(q == t);
                } else {
                    assert(xs[w - 1] == q);
                    assert(xs.contains(q));
                }
            }
            if xs.contains(q) {
                let w = choose|w: int| 0 <= w < xs.len() && xs[w] == q;
                if w < pos {
                    assert(ys[w] == q);
                } else {
                    assert(ys[w + 1] == q);
                }
                assert(ys.contains(q));
            }
            if q == t {
                assert(ys[pos] == q);
                assert(ys.contains(q));
            }
        }
    }
}

/// Walking the dots of one key adds exactly its dot-prefixes from `d`
/// on.
proof fn lemma_add_dots_elems(kk: Seq<char>, d: int, acc: Seq<Seq<char>>)
    requires
        0 <= d,
    ensures
        forall|q: Seq<char>|
            #[trigger] add_dot_prefixes(kk, d, acc).contains(q) <==> (acc.contains(q)
                || exists|j: int|
                d <= j < kk.len() && kk[j] == '.' && q == #[trigger] kk.subrange(0, j)),
    decreases kk.len() - d,
{
    let result = add_dot_prefixes(kk, d, acc);
    if d >= kk.len() {
    } else if kk[d] == '.' {
        let pre = kk.subrange(0, d);
        let acc2 = insert_name_spec(acc, pre);
        lemma_insert_name_elems(acc, pre);
        lemma_add_dots_elems(kk, d + 1, acc2);
        assert(result == add_dot_prefixes(kk, d + 1, acc2));
        assert forall|q: Seq<char>|
            #[trigger] result.contains(q) <==> (acc.contains(q) || exists|j: int|
                d <= j < kk.len() && kk[j] == '.' && q == #[trigger] kk.subrange(0, j)) by {
            if result.contains(q) {
                assert(add_dot_prefixes(kk, d + 1, acc2).contains(q));
                if acc2.contains(q) {
                    if !acc.contains(q) {
                        assert(q == pre);
                        assert(q == kk.subrange(0, d));
                    }
                }
            }
            if acc.contains(q) {
                assert(acc2.contains(q));
                assert(add_dot_prefixes(kk, d + 1, acc2).contains(q));
            }
            if exists|j: int| d <= j < kk.len() && kk[j] == '.' && q == #[trigger] kk.subrange(
                0,
                j,
            ) {
                let j = choose|j: int|
                    d <= j < kk.len() && kk[j] == '.' && q == #[trigger] kk.subrange(0, j);
                if j == d {
                    assert(acc2.contains(q));
                }
                assert(add_dot_prefixes(kk, d + 1, acc2).contains(q));
            }
        }
    } else {
        lemma_add_dots_elems(kk, d + 1, acc);
        assert(result == add_dot_prefixes(kk, d + 1, acc));
        assert forall|q: Seq<char>|
            #[trigger] result.contains(q) <==> (acc.contains(q) || exists|j: int|
                d <= j < kk.len() && kk[j] == '.' && q == #[trigger] kk.subrange(0, j)) by {
            if result.contains(q) {
                assert(add_dot_prefixes(kk, d + 1, acc).contains(q));
            }
            if acc.contains(q) {
                assert(add_dot_prefixes(kk, d + 1, acc).contains(q));
            }
            if exists|j: int| d <= j < kk.len() && kk[j] == '.' && q == #[trigger] kk.subrange(
                0,
                j,
            ) {
                let j = choose|j: int|
                    d <= j < kk.len() && kk[j] == '.' && q == #[trigger] kk.subrange(0, j);
                assert(j != d);
                assert(add_dot_prefixes(kk, d + 1, acc).contains(q));
            }
        }
    }
}

/// The section walk collects exactly the subsection names.
#[verifier::rlimit(60)]
proof fn lemma_section_tree_elems(ps: Seq<(Seq<char>, Seq<char>)>, sec: Seq<char>, acc: Seq<
    Seq<char>,
>)
    ensures
        forall|q: Seq<char>|
            #[trigger] section_tree_spec(ps, sec, acc).contains(q) <==> (acc.contains(q)
                || is_tree_section(ps, sec, q)),
    decreases ps.len(),
{
    let result = section_tree_spec(ps, sec, acc);
    if ps.len() == 0 {
    } else {
        let k = ps[0].0;
        let below = key_below(ps[0], sec);
        let kk = below_key(ps[0], sec);
        let acc2 = if sec.len() == 0 {
            add_dot_prefixes(k, 0, acc)
        } else if in_tree(k, sec) {
            add_dot_prefixes(strip_sec(k, sec), 0, acc)
        } else {
            acc
        };
        if below {
            lemma_add_dots_elems(kk, 0, acc);
        }
        lemma_section_tree_elems(ps.drop_first(), sec, acc2);
        assert(result == section_tree_spec(ps.drop_first(), sec, acc2));
        assert forall|q: Seq<char>|
            #[trigger] result.contains(q) <==> (acc.contains(q) || is_tree_section(
                ps,
                sec,
                q,
            )) by {
            if result.contains(q) {
                assert(section_tree_spec(ps.drop_first(), sec, acc2).contains(q));
                if acc2.contains(q) {
                    if !acc.contains(q) {
                        assert(below);
                        assert(add_dot_prefixes(kk, 0, acc).contains(q));
                        let j = choose|j: int|
                            0 <= j < kk.len() && kk[j] == '.' && q == #[trigger] kk.subrange(
                                0,
                                j,
                            );
                        assert(q == below_key(ps[0], sec).subrange(0, j));
                        assert(is_tree_section(ps, sec, q));
                    }
                } else {
                    assert(is_tree_section(ps.drop_first(), sec, q));
                    let (i2, j2) = choose|i2: int, j2: int|
                        0 <= i2 < ps.drop_first().len() && key_below(ps.drop_first()[i2], sec)
                            && 0 <= j2 < below_key(ps.drop_first()[i2], sec).len() && below_key(
                            ps.drop_first()[i2],
                            sec,
                        )[j2] == '.' && q == #[trigger] below_key(
                            ps.drop_first()[i2],
                            sec,
                        ).subrange(0, j2);
                    assert(ps.drop_first()[i2] == ps[i2 + 1]);
                    assert(q == below_key(ps[i2 + 1], sec).subrange(0, j2));
                    assert(is_tree_section(ps, sec, q));
                }
            }
            if acc.contains(q) {
                if below {
                    assert(add_dot_prefixes(kk, 0, acc).contains(q));
                }
                assert(acc2.contains(q));
                assert(section_tree_spec(ps.drop_first(), sec, acc2).contains(q));
            }
            if is_tree_section(ps, sec, q) {
                let (i2, j2) = choose|i2: int, j2: int|
                    0 <= i2 < ps.len() && key_below(ps[i2], sec) && 0 <= j2 < below_key(
                        ps[i2],
                        sec,
                    ).len() && below_key(ps[i2], sec)[j2] == '.' && q == #[trigger] below_key(
                        ps[i2],
                        sec,
                    ).subrange(0, j2);
                if i2 == 0 {
                    assert(below);
                    assert(q == kk.subrange(0, j2));
                    assert(add_dot_prefixes(kk, 0, acc).contains(q));
                    assert(acc2.contains(q));
                } else {
                    assert(ps.drop_first()[i2 - 1] == ps[i2]);
                    assert(q == below_key(ps.drop_first()[i2 - 1], sec).subrange(0, j2));
                    assert(is_tree_section(ps.drop_first(), sec, q));
                }
                assert(section_tree_spec(ps.drop_first(), sec, acc2).contains(q));
            }
        }
    }
}

/// One key's leaf contribution adds at most its first-dot prefix.
proof fn lemma_add_leaf_elems(kk: Seq<char>, acc: Seq<Seq<char>>)
    ensures
        forall|q: Seq<char>|
            #[trigger] add_leaf_prefix(kk, acc).contains(q) <==> (acc.contains(q) || ({
                let d = crate::format::first_dot(kk);
                d < kk.len() && !has_dot(tail_from(kk, d + 1)) && q == kk.subrange(0, d)
            })),
{
    let d = crate::format::first_dot(kk);
    if d < kk.len() && !has_dot(tail_from(kk, d + 1)) {
        lemma_insert_name_elems(acc, kk.subrange(0, d));
    }
}

/// The leaf walk collects exactly the direct subsection names.
#[verifier::rlimit(60)]
proof fn lemma_section_leaves_elems(ps: Seq<(Seq<char>, Seq<char>)>, sec: Seq<char>, acc: Seq<
    Seq<char>,
>)
    ensures
        forall|q: Seq<char>|
            #[trigger] section_leaves_spec(ps, sec, acc).contains(q) <==> (acc.contains(q)
                || is_leaf_section(ps, sec, q)),
    decreases ps.len(),
{
    let result = section_leaves_spec(ps, sec, acc);
    if ps.len() == 0 {
    } else {
        let k = ps[0].0;
        let below = key_below(ps[0], sec);
        let kk = below_key(ps[0], sec);
        let dd = crate::format::first_dot(kk);
        let acc2 = if sec.len() == 0 {
            add_leaf_prefix(k, acc)
        } else if in_tree(k, sec) {
            add_leaf_prefix(strip_sec(k, sec), acc)
        } else {
            acc
        };
        if below {
            lemma_add_leaf_elems(kk, acc);
        }
        lemma_section_leaves_elems(ps.drop_first(), sec, acc2);
        assert(result == section_leaves_spec(ps.drop_first(), sec, acc2));
        assert forall|q: Seq<char>|
            #[trigger] result.contains(q) <==> (acc.contains(q) || is_leaf_section(
                ps,
                sec,
                q,
            )) by {
            if result.contains(q) {
                assert(section_leaves_spec(ps.drop_first(), sec, acc2).contains(q));
                if acc2.contains(q) {
                    if !acc.contains(q) {
                        assert(below);
                        assert(add_leaf_prefix(kk, acc).contains(q));
                        assert(below_key(ps[0], sec) == kk);
                        assert(is_leaf_section(ps, sec, q));
                    }
                } else {
                    assert(is_leaf_section(ps.drop_first(), sec, q));
                    let i2 = choose|i2: int|
                        #![trigger below_key(ps.drop_first()[i2], sec)]
                        0 <= i2 < ps.drop_first().len() && key_below(ps.drop_first()[i2], sec)
                            && {
                            let kk2 = below_key(ps.drop_first()[i2], sec);
                            let d2 = crate::format::first_dot(kk2);
                            d2 < kk2.len() && !has_dot(tail_from(kk2, d2 + 1)) && q
                                == kk2.subrange(0, d2)
                        };
                    assert(ps.drop_first()[i2] == ps[i2 + 1]);
                    assert(below_key(ps[i2 + 1], sec) == below_key(ps.drop_first()[i2], sec));
                    assert(is_leaf_section(ps, sec, q));
                }
            }
            if acc.contains(q) {
                if below {
                    assert(add_leaf_prefix(kk, acc).contains(q));
                }
                assert(acc2.contains(q));
                assert(section_leaves_spec(ps.drop_first(), sec, acc2).contains(q));
            }
            if is_leaf_section(ps, sec, q) {
                let i2 = choose|i2: int|
                    #![trigger below_key(ps[i2], sec)]
                    0 <= i2 < ps.len() && key_below(ps[i2], sec) && {
                        let kk2 = below_key(ps[i2], sec);
                        let d2 = crate::format::first_dot(kk2);
                        d2 < kk2.len() && !has_dot(tail_from(kk2, d2 + 1)) && q == kk2.subrange(
                            0,
                            d2,
                        )
                    };
                if i2 == 0 {
                    assert(below);
                    assert(add_leaf_prefix(kk, acc).contains(q));
                    assert(acc2.contains(q));
                } else {
                    assert(ps.drop_first()[i2 - 1] == ps[i2]);
                    assert(below_key(ps.drop_first()[i2 - 1], sec) == below_key(ps[i2], sec));
                    assert(is_leaf_section(ps.drop_first(), sec, q));
                }
                assert(section_leaves_spec(ps.drop_first(), sec, acc2).contains(q));
            }
        }
    }
}

/// `name_pos` keeps every earlier name strictly before `t` and lands on
/// the first that is not./// `name_pos` keeps every earlier name strictly before `t` and lands on
/// the first that is not./// `name_pos` keeps every earlier name strictly before `t` and lands on
/// the first that is not.
proof fn lemma_name_pos(xs: Seq<Seq<char>>, t: Seq<char>)
    ensures
        0 <= name_pos(xs, t) <= xs.len(),
        name_pos(xs, t) < xs.len() ==> lex_cmp(xs[name_pos(xs, t)], t) >= 0,
        forall|j: int| 0 <= j < name_pos(xs, t) ==> lex_cmp(xs[j], t) < 0,
    decreases xs.len(),
{
    if xs.len() > 0 && !(lex_cmp(xs[0], t) >= 0) {
        lemma_name_pos(xs.drop_first(), t);
        assert forall|j: int| 0 <= j < name_pos(xs, t) implies lex_cmp(xs[j], t) < 0 by {
            if j > 0 {
                assert(xs.drop_first()[j - 1] == xs[j]);
            }
        }
    }
}

/// Adds a name to the sorted list, unless it is already there.
fn insert_name(names: &mut Vec<Vec<char>>, t: Vec<char>)
    ensures
        cnames_view(final(names)@) == insert_name_spec(cnames_view(old(names)@), t@),
{
    let ghost xs = cnames_view(names@);
    proof {
        lemma_name_pos(xs, t@);
    }
    let mut pos: usize = 0;
    loop
        invariant
            names == old(names),
            xs == cnames_view(names@),
            0 <= pos <= xs.len(),
            forall|j: int| 0 <= j < pos ==> lex_cmp(xs[j], t@) < 0,
        ensures
            names == old(names),
            pos as int == name_pos(xs, t@),
        decreases xs.len() - pos,
    {
        if pos < names.len() {
            let c = lex_cmp_chars(&names[pos], &t);
            proof {
                assert(cnames_view(names@).len() == names@.len());
                assert(xs[pos as int] == names@[pos as int]@);
            }
            if c >= 0 {
                proof {
                    lemma_name_pos(xs, t@);
                    assert(pos as int == name_pos(xs, t@));
                }
                break;
            }
            pos += 1;
        } else {
            proof {
                lemma_name_pos(xs, t@);
                assert(pos as int == name_pos(xs, t@));
            }
            break;
        }
    }
    if pos < names.len() {
        let c = lex_cmp_chars(&names[pos], &t);
        if c == 0 {
            return ;
        }
    }
    names.insert(pos, t);
    proof {
        let ghost tv = names@[pos as int]@;
        assert forall|j: int| 0 <= j < names@.len() implies cnames_view(names@)[j] == xs.insert(
            pos as int,
            tv,
        )[j] by {
            if j < pos {
                assert(names@[j] == old(names)@[j]);
            } else if j > pos {
                assert(names@[j] == old(names)@[j - 1]);
            }
        }
        assert(cnames_view(names@) =~= xs.insert(pos as int, tv));
    }
}

/// Adds, for every dot of `kk`, the prefix that ends just before it.
fn add_dots(names: &mut Vec<Vec<char>>, kk: &Vec<char>)
    ensures
        cnames_view(final(names)@) == add_dot_prefixes(kk@, 0, cnames_view(old(names)@)),
{
    let ghost acc0 = cnames_view(names@);
    let mut d: usize = 0;
    loop
        invariant
            0 <= d <= kk@.len(),
            add_dot_prefixes(kk@, 0, acc0) == add_dot_prefixes(
                kk@,
                d as int,
                cnames_view(names@),
            ),
        ensures
            cnames_view(names@) == add_dot_prefixes(kk@, 0, acc0),
        decreases kk@.len() - d,
    {
        if d < kk.len() {
            if kk[d] == '.' {
                let pre = copy_range(kk, 0, d);
                insert_name(names, pre);
            }
            d += 1;
        } else {
            break;
        }
    }
}

/// Adds the part of `kk` before its first dot, when that dot is its
/// only one.
fn add_leaf(names: &mut Vec<Vec<char>>, kk: &Vec<char>)
    ensures
        cnames_view(final(names)@) == add_leaf_prefix(kk@, cnames_view(old(names)@)),
{
    let d = find_dot(kk, 0);
    proof {
        assert(kk@.subrange(0, kk@.len() as int) =~= kk@);
        assert(crate::format::first_dot(kk@) == d);
    }
    if d < kk.len() && !dotted_from(kk, d + 1) {
        let pre = copy_range(kk, 0, d);
        insert_name(names, pre);
    }
}

/// Returns the names of subsections of the specified section, sorted
/// and without duplicates. Note that this does not necessarily mean
/// that the respective section names are in the source as section
/// headers.
///
/// The CNI specification calls this `SectionTree`.
pub fn section_tree(map: &Vec<(String, String)>, section: &str) -> (r: Vec<String>)
    ensures
        names_view(r@) == section_tree_spec(pairs_view(map@), section@, Seq::empty()),
        forall|q: Seq<char>|
            #[trigger] names_view(r@).contains(q) <==> is_tree_section(
                pairs_view(map@),
                section@,
                q,
            ),
{
    proof {
        lemma_section_tree_elems(pairs_view(map@), section@, Seq::empty());
    }
    let sec = chars_of(section);
    let ghost full = pairs_view(map@);
    let mut names: Vec<Vec<char>> = Vec::new();
    let mut i: usize = 0;
    proof {
        assert(full.skip(0) =~= full);
        assert(cnames_view(names@) =~= Seq::<Seq<char>>::empty());
    }
    loop
        invariant
            0 <= i <= full.len(),
            full == pairs_view(map@),
            sec@ == section@,
            section_tree_spec(full, section@, Seq::empty()) == section_tree_spec(
                full.skip(i as int),
                section@,
                cnames_view(names@),
            ),
        ensures
            cnames_view(names@) == section_tree_spec(full, section@, Seq::empty()),
        decreases full.len() - i,
    {
        let ghost suffix = full.skip(i as int);
        if i == map.len() {
            proof {
                assert(suffix.len() == 0);
            }
            break;
        }
        let k = chars_of(map[i].0.as_str());
        proof {
            assert(suffix[0] == full[i as int]);
            assert(suffix.drop_first() =~= full.skip(i + 1));
        }
        if sec.len() == 0 {
            add_dots(&mut names, &k);
        } else if in_tree_chars(&k, &sec) {
            let kl = k.len();
            proof {
                assert(sec@.len() < k@.len());
            }
            let kk = copy_range(&k, sec.len() + 1, kl);
            proof {
                assert(kk@ =~= strip_sec(k@, section@));
            }
            add_dots(&mut names, &kk);
        }
        i += 1;
    }
    let mut r: Vec<String> = Vec::new();
    let mut j: usize = 0;
    proof {
        assert(names_view(r@) =~= cnames_view(names@).subrange(0, 0));
    }
    loop
        invariant
            0 <= j <= names@.len(),
            names_view(r@) == cnames_view(names@).subrange(0, j as int),
        ensures
            names_view(r@) == cnames_view(names@),
        decreases names@.len() - j,
    {
        if j < names.len() {
            let ghost r0 = r@;
            r.push(string_of(&names[j]));
            proof {
                assert(names_view(r0).len() == r0.len());
                assert(r@.len() == j + 1);
                assert forall|x: int| 0 <= x < r@.len() implies names_view(r@)[x] == cnames_view(
                    names@,
                ).subrange(0, j + 1)[x] by {
                    if x < j {
                        assert(r@[x] == r0[x]);
                        assert(names_view(r0)[x] == cnames_view(names@).subrange(0, j as int)[x]);
                    } else {
                        assert(r@[x]@ == names@[j as int]@);
                        assert(cnames_view(names@)[x] == names@[x]@);
                    }
                }
                assert(names_view(r@) =~= cnames_view(names@).subrange(0, j + 1));
            }
            j += 1;
        } else {
            proof {
                assert(cnames_view(names@).subrange(0, names@.len() as int) =~= cnames_view(
                    names@,
                ));
            }
            break;
        }
    }
    r
}

/// Returns the names of direct subsections of the specified section,
/// sorted and without duplicates.
///
/// The CNI specification calls this `SectionLeaves`.
pub fn section_leaves(map: &Vec<(String, String)>, section: &str) -> (r: Vec<String>)
    ensures
        names_view(r@) == section_leaves_spec(pairs_view(map@), section@, Seq::empty()),
        forall|q: Seq<char>|
            #[trigger] names_view(r@).contains(q) <==> is_leaf_section(
                pairs_view(map@),
                section@,
                q,
            ),
{
    proof {
        lemma_section_leaves_elems(pairs_view(map@), section@, Seq::empty());
    }
    let sec = chars_of(section);
    let ghost full = pairs_view(map@);
    let mut names: Vec<Vec<char>> = Vec::new();
    let mut i: usize = 0;
    proof {
        assert(full.skip(0) =~= full);
        assert(cnames_view(names@) =~= Seq::<Seq<char>>::empty());
    }
    loop
        invariant
            0 <= i <= full.len(),
            full == pairs_view(map@),
            sec@ == section@,
            section_leaves_spec(full, section@, Seq::empty()) == section_leaves_spec(
                full.skip(i as int),
                section@,
                cnames_view(names@),
            ),
        ensures
            cnames_view(names@) == section_leaves_spec(full, section@, Seq::empty()),
        decreases full.len() - i,
    {
        let ghost suffix = full.skip(i as int);
        if i == map.len() {
            proof {
                assert(suffix.len() == 0);
            }
            break;
        }
        let k = chars_of(map[i].0.as_str());
        proof {
            assert(suffix[0] == full[i as int]);
            assert(suffix.drop_first() =~= full.skip(i + 1));
        }
        if sec.len() == 0 {
            add_leaf(&mut names, &k);
        } else if in_tree_chars(&k, &sec) {
            let kl = k.len();
            proof {
                assert(sec@.len() < k@.len());
            }
            let kk = copy_range(&k, sec.len() + 1, kl);
            proof {
                assert(kk@ =~= strip_sec(k@, section@));
            }
            add_leaf(&mut names, &kk);
        }
        i += 1;
    }
    let mut r: Vec<String> = Vec::new();
    let mut j: usize = 0;
    proof {
        assert(names_view(r@) =~= cnames_view(names@).subrange(0, 0));
    }
    loop
        invariant
            0 <= j <= names@.len(),
            names_view(r@) == cnames_view(names@).subrange(0, j as int),
        ensures
            names_view(r@) == cnames_view(names@),
        decreases names@.len() - j,
    {
        if j < names.len() {
            let ghost r0 = r@;
            r.push(string_of(&names[j]));
            proof {
                assert(names_view(r0).len() == r0.len());
                assert(r@.len() == j + 1);
                assert forall|x: int| 0 <= x < r@.len() implies names_view(r@)[x] == cnames_view(
                    names@,
                ).subrange(0, j + 1)[x] by {
                    if x < j {
                        assert(r@[x] == r0[x]);
                        assert(names_view(r0)[x] == cnames_view(names@).subrange(0, j as int)[x]);
                    } else {
                        assert(r@[x]@ == names@[j as int]@);
                        assert(cnames_view(names@)[x] == names@[x]@);
                    }
                }
                assert(names_view(r@) =~= cnames_view(names@).subrange(0, j + 1));
            }
            j += 1;
        } else {
            proof {
                assert(cnames_view(names@).subrange(0, names@.len() as int) =~= cnames_view(
                    names@,
                ));
            }
            break;
        }
    }
    r
}

/// Returns a clone of the store that only contains child elements of
/// the specified section. The section name and delimiter are removed in
/// the result.
///
/// The CNI specification calls this `SubTree`.
pub fn sub_tree(map: &Vec<(String, String)>, section: &str) -> (r: Vec<(String, String)>)
    ensures
        pairs_view(r@) == sub_tree_spec(pairs_view(map@), section@),
{
    let sec = chars_of(section);
    let ghost full = pairs_view(map@);
    let mut r: Vec<(String, String)> = Vec::new();
    let mut i: usize = 0;
    proof {
        assert(full.skip(0) =~= full);
        assert(pairs_view(r@) =~= Seq::<(Seq<char>, Seq<char>)>::empty());
    }
    loop
        invariant
            0 <= i <= full.len(),
            full == pairs_view(map@),
            sec@ == section@,
            sub_tree_spec(full, section@) == pairs_view(r@).add(
                sub_tree_spec(full.skip(i as int), section@),
            ),
        ensures
            pairs_view(r@) == sub_tree_spec(full, section@),
        decreases full.len() - i,
    {
        let ghost suffix = full.skip(i as int);
        let ghost acc0 = pairs_view(r@);
        if i == map.len() {
            proof {
                assert(sub_tree_spec(suffix, section@) == Seq::<(Seq<char>, Seq<char>)>::empty());
                assert(acc0.add(sub_tree_spec(suffix, section@)) =~= acc0);
            }
            break;
        }
        let k = chars_of(map[i].0.as_str());
        proof {
            assert(suffix[0] == full[i as int]);
            assert(suffix.drop_first() =~= full.skip(i + 1));
        }
        if sec.len() == 0 {
            r.push((string_of(&k), map[i].1.clone()));
            proof {
                assert(pairs_view(r@) =~= acc0.push((k@, map@[i as int].1@)));
                assert(acc0.push((k@, map@[i as int].1@)).add(
                    sub_tree_spec(full.skip(i + 1), section@),
                ) =~= acc0.add(sub_tree_spec(suffix, section@)));
            }
        } else if in_tree_chars(&k, &sec) {
            let kl = k.len();
            proof {
                assert(sec@.len() < k@.len());
            }
            let stripped = copy_range(&k, sec.len() + 1, kl);
            proof {
                assert(stripped@ =~= strip_sec(k@, section@));
            }
            r.push((string_of(&stripped), map[i].1.clone()));
            proof {
                assert(pairs_view(r@) =~= acc0.push((strip_sec(k@, section@), map@[i as int].1@)));
                assert(acc0.push((strip_sec(k@, section@), map@[i as int].1@)).add(
                    sub_tree_spec(full.skip(i + 1), section@),
                ) =~= acc0.add(sub_tree_spec(suffix, section@)));
            }
        }
        i += 1;
    }
    r
}

/// Returns a clone of the store that only contains direct child
/// elements of the specified section. The section name and delimiter
/// are removed in the result.
///
/// The CNI specification calls this `SubLeaves`.
pub fn sub_leaves(map: &Vec<(String, String)>, section: &str) -> (r: Vec<(String, String)>)
    ensures
        pairs_view(r@) == sub_leaves_spec(pairs_view(map@), section@),
{
    let sec = chars_of(section);
    let ghost full = pairs_view(map@);
    let mut r: Vec<(String, String)> = Vec::new();
    let mut i: usize = 0;
    proof {
        assert(full.skip(0) =~= full);
        assert(pairs_view(r@) =~= Seq::<(Seq<char>, Seq<char>)>::empty());
    }
    loop
        invariant
            0 <= i <= full.len(),
            full == pairs_view(map@),
            sec@ == section@,
            sub_leaves_spec(full, section@) == pairs_view(r@).add(
                sub_leaves_spec(full.skip(i as int), section@),
            ),
        ensures
            pairs_view(r@) == sub_leaves_spec(full, section@),
        decreases full.len() - i,
    {
        let ghost suffix = full.skip(i as int);
        let ghost acc0 = pairs_view(r@);
        if i == map.len() {
            proof {
                assert(sub_leaves_spec(suffix, section@) == Seq::<(Seq<char>, Seq<char>)>::empty());
                assert(acc0.add(sub_leaves_spec(suffix, section@)) =~= acc0);
            }
            break;
        }
        let k = chars_of(map[i].0.as_str());
        proof {
            assert(suffix[0] == full[i as int]);
            assert(suffix.drop_first() =~= full.skip(i + 1));
            assert(k@.skip(0) =~= k@);
        }
        if sec.len() == 0 {
            if !dotted_from(&k, 0) {
                r.push((string_of(&k), map[i].1.clone()));
                proof {
                    assert(pairs_view(r@) =~= acc0.push((k@, map@[i as int].1@)));
                    assert(acc0.push((k@, map@[i as int].1@)).add(
                        sub_leaves_spec(full.skip(i + 1), section@),
                    ) =~= acc0.add(sub_leaves_spec(suffix, section@)));
                }
            }
        } else if in_tree_chars(&k, &sec) {
            let kl = k.len();
            proof {
                assert(sec@.len() < k@.len());
            }
            if !dotted_from(&k, sec.len() + 1) {
                let stripped = copy_range(&k, sec.len() + 1, kl);
                proof {
                    assert(stripped@ =~= strip_sec(k@, section@));
                }
                r.push((string_of(&stripped), map[i].1.clone()));
                proof {
                    assert(pairs_view(r@) =~= acc0.push(
                        (strip_sec(k@, section@), map@[i as int].1@),
                    ));
                    assert(acc0.push((strip_sec(k@, section@), map@[i as int].1@)).add(
                        sub_leaves_spec(full.skip(i + 1), section@),
                    ) =~= acc0.add(sub_leaves_spec(suffix, section@)));
                }
            }
        }
        i += 1;
    }
    r
}

/// Returns the entries below the specified section, keys kept whole.
///
/// The CNI specification calls this `WalkTree`.
pub fn walk_tree(map: &Vec<(String, String)>, section: &str) -> (r: Vec<(String, String)>)
    ensures
        pairs_view(r@) == walk_tree_spec(pairs_view(map@), section@),
{
    let sec = chars_of(section);
    let ghost full = pairs_view(map@);
    let mut r: Vec<(String, String)> = Vec::new();
    let mut i: usize = 0;
    proof {
        assert(full.skip(0) =~= full);
        assert(pairs_view(r@) =~= Seq::<(Seq<char>, Seq<char>)>::empty());
    }
    loop
        invariant
            0 <= i <= full.len(),
            full == pairs_view(map@),
            sec@ == section@,
            walk_tree_spec(full, section@) == pairs_view(r@).add(
                walk_tree_spec(full.skip(i as int), section@),
            ),
        ensures
            pairs_view(r@) == walk_tree_spec(full, section@),
        decreases full.len() - i,
    {
        let ghost suffix = full.skip(i as int);
        let ghost acc0 = pairs_view(r@);
        if i == map.len() {
            proof {
                assert(walk_tree_spec(suffix, section@) == Seq::<(Seq<char>, Seq<char>)>::empty());
                assert(acc0.add(walk_tree_spec(suffix, section@)) =~= acc0);
            }
            break;
        }
        let k = chars_of(map[i].0.as_str());
        proof {
            assert(suffix[0] == full[i as int]);
            assert(suffix.drop_first() =~= full.skip(i + 1));
        }
        let keep = sec.len() == 0 || in_tree_chars(&k, &sec);
        if keep {
            r.push((string_of(&k), map[i].1.clone()));
            proof {
                assert(pairs_view(r@) =~= acc0.push((k@, map@[i as int].1@)));
                assert(acc0.push((k@, map@[i as int].1@)).add(
                    walk_tree_spec(full.skip(i + 1), section@),
                ) =~= acc0.add(walk_tree_spec(suffix, section@)));
            }
        }
        i += 1;
    }
    r
}

/// Returns the direct children of the specified section, keys kept
/// whole.
///
/// The CNI specification calls this `WalkLeaves`.
pub fn walk_leaves(map: &Vec<(String, String)>, section: &str) -> (r: Vec<(String, String)>)
    ensures
        pairs_view(r@) == walk_leaves_spec(pairs_view(map@), section@),
{
    let sec = chars_of(section);
    let ghost full = pairs_view(map@);
    let mut r: Vec<(String, String)> = Vec::new();
    let mut i: usize = 0;
    proof {
        assert(full.skip(0) =~= full);
        assert(pairs_view(r@) =~= Seq::<(Seq<char>, Seq<char>)>::empty());
    }
    loop
        invariant
            0 <= i <= full.len(),
            full == pairs_view(map@),
            sec@ == section@,
            walk_leaves_spec(full, section@) == pairs_view(r@).add(
                walk_leaves_spec(full.skip(i as int), section@),
            ),
        ensures
            pairs_view(r@) == walk_leaves_spec(full, section@),
        decreases full.len() - i,
    {
        let ghost suffix = full.skip(i as int);
        let ghost acc0 = pairs_view(r@);
        if i == map.len() {
            proof {
                assert(walk_leaves_spec(suffix, section@) == Seq::<
                    (Seq<char>, Seq<char>),
                >::empty());
                assert(acc0.add(walk_leaves_spec(suffix, section@)) =~= acc0);
            }
            break;
        }
        let k = chars_of(map[i].0.as_str());
        proof {
            assert(suffix[0] == full[i as int]);
            assert(suffix.drop_first() =~= full.skip(i + 1));
        }
        let below = sec.len() == 0 || in_tree_chars(&k, &sec);
        let kl = k.len();
        proof {
            if below && sec@.len() > 0 {
                assert(sec@.len() < k@.len());
            }
        }
        let keep = below && !dotted_from(&k, sec.len() + 1);
        if keep {
            r.push((string_of(&k), map[i].1.clone()));
            proof {
                assert(pairs_view(r@) =~= acc0.push((k@, map@[i as int].1@)));
                assert(acc0.push((k@, map@[i as int].1@)).add(
                    walk_leaves_spec(full.skip(i + 1), section@),
                ) =~= acc0.add(walk_leaves_spec(suffix, section@)));
            }
        }
        i += 1;
    }
    r
}

} // verus!
