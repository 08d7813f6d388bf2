//! The serializer: turns a key/value store back into CNI format text,
//! with as few section headers as possible.

use vstd::prelude::*;

use crate::chars::is_vertical_ws;
use crate::chars::is_vws;
use crate::parser::pairs_view;
use crate::text::chars_of;
use crate::text::chars_eq;
use crate::text::copy_range;
use crate::text::push_all;
use crate::text::string_of;

verus! {

/// A value that cannot be written as a bareword: it holds a backtick,
/// vertical whitespace or a comment-start character.
pub open spec fn needs_raw(v: Seq<char>) -> bool {
    exists|i: int|
        0 <= i < v.len() && (v[i] == '`' || is_vws(v[i]) || v[i] == '#' || v[i] == ';')
}

/// The value with every backtick doubled, ready to stand between raw
/// delimiters.
pub open spec fn escape_raw(v: Seq<char>) -> Seq<char>
    decreases v.len(),
{
    if v.len() == 0 {
        Seq::empty()
    } else if v[0] == '`' {
        seq!['`', '`'].add(escape_raw(v.drop_first()))
    } else {
        seq![v[0]].add(escape_raw(v.drop_first()))
    }
}

/// How a value is written: `#empty` for the empty value, a raw literal
/// where a bareword would be misread, and the bare value otherwise.
pub open spec fn fmt_value(v: Seq<char>) -> Seq<char> {
    if v.len() == 0 {
        seq!['#', 'e', 'm', 'p', 't', 'y']
    } else if needs_raw(v) {
        seq!['`'].add(escape_raw(v)).add(seq!['`'])
    } else {
        v
    }
}

/// The position of the first dot in a key, or its length.
pub open spec fn first_dot(k: Seq<char>) -> int
    decreases k.len(),
{
    if k.len() == 0 {
        0
    } else if k[0] == '.' {
        0
    } else {
        1 + first_dot(k.drop_first())
    }
}

pub proof fn lemma_first_dot(k: Seq<char>)
    ensures
        0 <= first_dot(k) <= k.len(),
        first_dot(k) < k.len() ==> k[first_dot(k)] == '.',
        forall|j: int| 0 <= j < first_dot(k) ==> k[j] != '.',
    decreases k.len(),
{
    if k.len() > 0 && k[0] != '.' {
        lemma_first_dot(k.drop_first());
        assert forall|j: int| 0 <= j < first_dot(k) implies k[j] != '.' by {
            if j > 0 {
                assert(k.drop_first()[j - 1] == k[j]);
            }
        }
    }
}

/// Whether the key holds a dot at all.
pub open spec fn has_dot(k: Seq<char>) -> bool {
    exists|i: int| 0 <= i < k.len() && k[i] == '.'
}

/// Lexicographic comparison of two character sequences by scalar value:
/// negative, zero or positive as `a` comes before, equal to or after
/// `b`.
pub open spec fn lex_cmp(a: Seq<char>, b: Seq<char>) -> int
    decreases a.len(),
{
    if a.len() == 0 && b.len() == 0 {
        0
    } else if a.len() == 0 {
        -1
    } else if b.len() == 0 {
        1
    } else if (a[0] as u32) < (b[0] as u32) {
        -1
    } else if (a[0] as u32) > (b[0] as u32) {
        1
    } else {
        lex_cmp(a.drop_first(), b.drop_first())
    }
}

/// Two character sequences that compare equal are equal.
pub(crate) proof fn lemma_lex_zero(a: Seq<char>, b: Seq<char>)
    requires
        lex_cmp(a, b) == 0,
    ensures
        a == b,
    decreases a.len(),
{
    if a.len() > 0 {
        assert(b.len() > 0);
        assert((a[0] as u32) == (b[0] as u32));
        vstd::utf8::char_u32_cast(a[0], a[0] as u32);
        vstd::utf8::char_u32_cast(b[0], b[0] as u32);
        assert(a[0] == b[0]);
        lemma_lex_zero(a.drop_first(), b.drop_first());
        assert(a =~= seq![a[0]].add(a.drop_first()));
        assert(b =~= seq![b[0]].add(b.drop_first()));
    } else {
        assert(b.len() == 0);
        assert(a =~= b);
    }
}

/// The dot-separated segments of a key.
pub open spec fn split_dots(k: Seq<char>) -> Seq<Seq<char>>
    decreases k.len(),
    via split_dots_dec
{
    let d = first_dot(k);
    if d == k.len() {
        seq![k]
    } else {
        seq![k.subrange(0, d)].add(split_dots(k.subrange(d + 1, k.len() as int)))
    }
}

#[via_fn]
proof fn split_dots_dec(k: Seq<char>) {
    lemma_first_dot(k);
}

/// Compares two segment lists pairwise; whichever list ends first ends
/// the comparison as a tie.
pub open spec fn segs_cmp(xs: Seq<Seq<char>>, ys: Seq<Seq<char>>) -> int
    decreases xs.len(),
{
    if xs.len() == 0 || ys.len() == 0 {
        0
    } else if lex_cmp(xs[0], ys[0]) != 0 {
        lex_cmp(xs[0], ys[0])
    } else {
        segs_cmp(xs.drop_first(), ys.drop_first())
    }
}

/// The serializer's key order: keys without dots first, then grouped by
/// their segments.
pub open spec fn key_cmp(a: Seq<char>, b: Seq<char>) -> int {
    if !has_dot(a) && has_dot(b) {
        -1
    } else if has_dot(a) && !has_dot(b) {
        1
    } else {
        segs_cmp(split_dots(a), split_dots(b))
    }
}

/// Where a new pair goes in an already sorted list: after every entry
/// that does not compare greater, which keeps the sort stable.
pub open spec fn insert_pos(ps: Seq<(Seq<char>, Seq<char>)>, k: Seq<char>) -> int
    decreases ps.len(),
{
    if ps.len() == 0 {
        0
    } else if key_cmp(ps[0].0, k) > 0 {
        0
    } else {
        1 + insert_pos(ps.drop_first(), k)
    }
}

/// An already sorted list with one pair inserted at its position.
pub open spec fn insert_sorted(
    ps: Seq<(Seq<char>, Seq<char>)>,
    p: (Seq<char>, Seq<char>),
) -> Seq<(Seq<char>, Seq<char>)> {
    let i = insert_pos(ps, p.0);
    ps.subrange(0, i).add(seq![p]).add(ps.subrange(i, ps.len() as int))
}

/// The serializer's stable insertion sort.
pub open spec fn sort_spec(ps: Seq<(Seq<char>, Seq<char>)>) -> Seq<(Seq<char>, Seq<char>)>
    decreases ps.len(),
{
    if ps.len() == 0 {
        Seq::empty()
    } else {
        insert_sorted(sort_spec(ps.drop_last()), ps.last())
    }
}

/// The text that a pair list becomes, walked in order with the section
/// last written out: a key without a dot stands alone; a dotted key
/// opens a section header whenever its first segment differs from the
/// current section.
pub open spec fn emit(ps: Seq<(Seq<char>, Seq<char>)>, section: Seq<char>) -> Seq<char>
    decreases ps.len(),
    via emit_dec
{
    if ps.len() == 0 {
        Seq::empty()
    } else {
        let (k, v) = ps[0];
        let d = first_dot(k);
        if d == k.len() {
            k.add(seq![' ', '=', ' ']).add(fmt_value(v)).add(seq!['\n']).add(
                emit(ps.drop_first(), section),
            )
        } else {
            let sec = k.subrange(0, d);
            let rest = k.subrange(d + 1, k.len() as int);
            let header: Seq<char> = if sec == section {
                Seq::empty()
            } else {
                seq!['['].add(sec).add(seq![']', '\n'])
            };
            header.add(rest).add(seq![' ', '=', ' ']).add(fmt_value(v)).add(seq!['\n']).add(
                emit(ps.drop_first(), sec),
            )
        }
    }
}

#[via_fn]
proof fn emit_dec(ps: Seq<(Seq<char>, Seq<char>)>, section: Seq<char>) {
    if ps.len() > 0 {
        lemma_first_dot(ps[0].0);
    }
}

/// The view of a list of character-vector pairs.
pub open spec fn cpairs_view(v: Seq<(Vec<char>, Vec<char>)>) -> Seq<(Seq<char>, Seq<char>)> {
    Seq::new(v.len(), |i: int| (v[i].0@, v[i].1@))
}

/// `first_dot` is pinned down by its first-occurrence properties.
proof fn lemma_first_dot_at(s: Seq<char>, d: int)
    requires
        0 <= d <= s.len(),
        forall|j: int| 0 <= j < d ==> s[j] != '.',
        d < s.len() ==> s[d] == '.',
    ensures
        first_dot(s) == d,
{
    lemma_first_dot(s);
}

/// The position of the first dot in `k` at or after `from`.
pub(crate) fn find_dot(k: &Vec<char>, from: usize) -> (r: usize)
    requires
        from <= k@.len(),
    ensures
        from <= r <= k@.len(),
        first_dot(k@.subrange(from as int, k@.len() as int)) == r - from,
{
    let ghost sub = k@.subrange(from as int, k@.len() as int);
    let mut j: usize = from;
    loop
        invariant
            from <= j <= k@.len(),
            sub == k@.subrange(from as int, k@.len() as int),
            forall|i: int| from <= i < j ==> k@[i] != '.',
        ensures
            from <= j <= k@.len(),
            first_dot(sub) == j - from,
        decreases k@.len() - j,
    {
        if j < k.len() && k[j] != '.' {
            j += 1;
        } else {
            proof {
                assert forall|i: int| 0 <= i < j - from implies sub[i] != '.' by {
                    assert(sub[i] == k@[from + i]);
                }
                if j < k@.len() {
                    assert(sub[j - from] == k@[j as int]);
                }
                lemma_first_dot_at(sub, j - from);
            }
            break;
        }
    }
    j
}

/// Whether the key holds a dot.
fn has_dot_chars(k: &Vec<char>) -> (r: bool)
    ensures
        r == has_dot(k@),
{
    let d = find_dot(k, 0);
    proof {
        lemma_first_dot(k@.subrange(0, k@.len() as int));
        assert(k@.subrange(0, k@.len() as int) =~= k@);
        if d < k@.len() {
            assert(k@[d as int] == '.');
        } else {
            assert(forall|i: int| 0 <= i < k@.len() ==> k@[i] != '.');
        }
    }
    d < k.len()
}

/// The dot-separated segments of the key.
fn split_key(k: &Vec<char>) -> (r: Vec<Vec<char>>)
    ensures
        Seq::new(r@.len(), |i: int| r@[i]@) == split_dots(k@),
{
    let mut segs: Vec<Vec<char>> = Vec::new();
    let mut p: usize = 0;
    proof {
        assert(k@.subrange(0, k@.len() as int) =~= k@);
        assert(Seq::new(segs@.len(), |i: int| segs@[i]@) =~= Seq::<Seq<char>>::empty());
    }
    loop
        invariant_except_break
            split_dots(k@) == Seq::new(segs@.len(), |i: int| segs@[i]@).add(
                split_dots(k@.subrange(p as int, k@.len() as int)),
            ),
        invariant
            0 <= p <= k@.len(),
        ensures
            Seq::new(segs@.len(), |i: int| segs@[i]@) == split_dots(k@),
        decreases k@.len() - p,
    {
        let ghost sub = k@.subrange(p as int, k@.len() as int);
        let ghost segsv = Seq::new(segs@.len(), |i: int| segs@[i]@);
        let d = find_dot(k, p);
        let seg = copy_range(k, p, d);
        segs.push(seg);
        proof {
            assert(seg@ =~= sub.subrange(0, d - p));
            assert(Seq::new(segs@.len(), |i: int| segs@[i]@) =~= segsv.push(sub.subrange(
                0,
                d - p,
            )));
        }
        if d == k.len() {
            proof {
                assert(split_dots(sub) == seq![sub]);
                assert(sub.subrange(0, d - p) =~= sub);
                assert(segsv.add(split_dots(sub)) =~= segsv.push(sub));
                assert(Seq::new(segs@.len(), |i: int| segs@[i]@) == split_dots(k@));
            }
            break;
        }
        proof {
            let tail = sub.subrange(d - p + 1, sub.len() as int);
            assert(split_dots(sub) == seq![sub.subrange(0, d - p)].add(split_dots(tail)));
            assert(tail =~= k@.subrange(d + 1, k@.len() as int));
            assert(segsv.add(split_dots(sub)) =~= segsv.push(sub.subrange(0, d - p)).add(
                split_dots(tail),
            ));
        }
        p = d + 1;
    }
    segs
}

/// Lexicographic comparison of two character vectors.
pub(crate) fn lex_cmp_chars(a: &Vec<char>, b: &Vec<char>) -> (r: i32)
    ensures
        r as int == lex_cmp(a@, b@),
{
    let mut i: usize = 0;
    proof {
        assert(a@.skip(0) =~= a@);
        assert(b@.skip(0) =~= b@);
    }
    loop
        invariant
            0 <= i <= a@.len(),
            i <= b@.len(),
            lex_cmp(a@.skip(i as int), b@.skip(i as int)) == lex_cmp(a@, b@),
        decreases a@.len() - i,
    {
        let ghost sa = a@.skip(i as int);
        let ghost sb = b@.skip(i as int);
        if i < a.len() && i < b.len() {
            let ca = a[i];
            let cb = b[i];
            proof {
                assert(sa[0] == a@[i as int]);
                assert(sb[0] == b@[i as int]);
            }
            if (ca as u32) < (cb as u32) {
                return -1;
            }
            if (ca as u32) > (cb as u32) {
                return 1;
            }
            proof {
                assert(sa.drop_first() =~= a@.skip(i + 1));
                assert(sb.drop_first() =~= b@.skip(i + 1));
            }
            i += 1;
        } else if i < b.len() {
            proof {
                assert(sa.len() == 0);
                assert(sb.len() > 0);
            }
            return -1;
        } else if i < a.len() {
            return 1;
        } else {
            return 0;
        }
    }
}

/// Compares two segment lists pairwise.
fn segs_cmp_chars(xs: &Vec<Vec<char>>, ys: &Vec<Vec<char>>) -> (r: i32)
    ensures
        r as int == segs_cmp(
            Seq::new(xs@.len(), |i: int| xs@[i]@),
            Seq::new(ys@.len(), |i: int| ys@[i]@),
        ),
{
    let ghost vx = Seq::new(xs@.len(), |i: int| xs@[i]@);
    let ghost vy = Seq::new(ys@.len(), |i: int| ys@[i]@);
    let mut i: usize = 0;
    proof {
        assert(vx.skip(0) =~= vx);
        assert(vy.skip(0) =~= vy);
    }
    loop
        invariant
            0 <= i <= vx.len(),
            i <= vy.len(),
            vx == Seq::new(xs@.len(), |i: int| xs@[i]@),
            vy == Seq::new(ys@.len(), |i: int| ys@[i]@),
            segs_cmp(vx.skip(i as int), vy.skip(i as int)) == segs_cmp(vx, vy),
        decreases vx.len() - i,
    {
        let ghost sx = vx.skip(i as int);
        let ghost sy = vy.skip(i as int);
        if i < xs.len() && i < ys.len() {
            let c = lex_cmp_chars(&xs[i], &ys[i]);
            proof {
                assert(sx[0] == vx[i as int]);
                assert(sy[0] == vy[i as int]);
            }
            if c != 0 {
                return c;
            }
            proof {
                assert(sx.drop_first() =~= vx.skip(i + 1));
                assert(sy.drop_first() =~= vy.skip(i + 1));
            }
            i += 1;
        } else {
            proof {
                assert(sx.len() == 0 || sy.len() == 0);
            }
            return 0;
        }
    }
}

/// The serializer's key order, executable form.
fn key_cmp_chars(a: &Vec<char>, b: &Vec<char>) -> (r: i32)
    ensures
        r as int == key_cmp(a@, b@),
{
    let da = has_dot_chars(a);
    let db = has_dot_chars(b);
    if !da && db {
        -1
    } else if da && !db {
        1
    } else {
        let sa = split_key(a);
        let sb = split_key(b);
        segs_cmp_chars(&sa, &sb)
    }
}

/// Whether the value must be written in raw form.
fn needs_raw_chars(v: &Vec<char>) -> (r: bool)
    ensures
        r == needs_raw(v@),
{
    let mut i: usize = 0;
    loop
        invariant
            0 <= i <= v@.len(),
            forall|j: int|
                0 <= j < i ==> !(v@[j] == '`' || is_vws(v@[j]) || v@[j] == '#' || v@[j] == ';'),
        decreases v@.len() - i,
    {
        if i < v.len() {
            let c = v[i];
            if c == '`' || is_vertical_ws(&c) || c == '#' || c == ';' {
                return true;
            }
            i += 1;
        } else {
            return false;
        }
    }
}

/// Writes one value: `#empty` for an empty value, a raw literal with
/// doubled backticks where a bareword would be misread, and the bare
/// value otherwise.
pub(crate) fn format_value(value: &Vec<char>) -> (r: Vec<char>)
    ensures
        r@ == fmt_value(value@),
{
    let ghost s = value@;
    if value.len() == 0 {
        let mut r: Vec<char> = Vec::new();
        r.push('#');
        r.push('e');
        r.push('m');
        r.push('p');
        r.push('t');
        r.push('y');
        proof {
            assert(r@ =~= seq!['#', 'e', 'm', 'p', 't', 'y']);
        }
        r
    } else if needs_raw_chars(value) {
        // the value has to be stored as a raw value
        let mut r: Vec<char> = Vec::new();
        r.push('`');
        proof {
            assert(s.skip(0) =~= s);
            assert(r@ =~= seq!['`']);
        }
        let mut i: usize = 0;
        loop
            invariant
                0 <= i <= s.len(),
                s == value@,
                seq!['`'].add(escape_raw(s)) == r@.add(escape_raw(s.skip(i as int))),
            ensures
                r@ == seq!['`'].add(escape_raw(s)),
            decreases s.len() - i,
        {
            let ghost suf = s.skip(i as int);
            let ghost r0 = r@;
            if i < value.len() {
                let c = value[i];
                proof {
                    assert(suf[0] == s[i as int]);
                    assert(suf.drop_first() =~= s.skip(i + 1));
                }
                if c == '`' {
                    r.push('`');
                    r.push('`');
                    proof {
                        assert(escape_raw(suf) == seq!['`', '`'].add(escape_raw(s.skip(i + 1))));
                        assert(r@ =~= r0.add(seq!['`', '`']));
                        assert(r0.add(seq!['`', '`']).add(escape_raw(s.skip(i + 1))) =~= r0.add(
                            escape_raw(suf),
                        ));
                    }
                } else {
                    r.push(c);
                    proof {
                        assert(escape_raw(suf) == seq![c].add(escape_raw(s.skip(i + 1))));
                        assert(r@ =~= r0.add(seq![c]));
                        assert(r0.add(seq![c]).add(escape_raw(s.skip(i + 1))) =~= r0.add(
                            escape_raw(suf),
                        ));
                    }
                }
                i += 1;
            } else {
                proof {
                    assert(suf.len() == 0);
                    assert(escape_raw(suf) == Seq::<char>::empty());
                    assert(r@.add(escape_raw(suf)) =~= r@);
                }
                break;
            }
        }
        r.push('`');
        proof {
            assert(r@ =~= seq!['`'].add(escape_raw(s)).add(seq!['`']));
        }
        r
    } else {
        // normal value
        let r = copy_range(value, 0, value.len());
        proof {
            assert(s.subrange(0, s.len() as int) =~= s);
        }
        r
    }
}

/// `insert_pos` keeps everything not greater to the left and lands on
/// the first greater entry.
pub(crate) proof fn lemma_insert_pos(ps: Seq<(Seq<char>, Seq<char>)>, k: Seq<char>)
    ensures
        0 <= insert_pos(ps, k) <= ps.len(),
        insert_pos(ps, k) < ps.len() ==> key_cmp(ps[insert_pos(ps, k)].0, k) > 0,
        forall|j: int| 0 <= j < insert_pos(ps, k) ==> key_cmp(ps[j].0, k) <= 0,
    decreases ps.len(),
{
    if ps.len() > 0 && !(key_cmp(ps[0].0, k) > 0) {
        lemma_insert_pos(ps.drop_first(), k);
        assert forall|j: int| 0 <= j < insert_pos(ps, k) implies key_cmp(ps[j].0, k) <= 0 by {
            if j > 0 {
                assert(ps.drop_first()[j - 1] == ps[j]);
            }
        }
    }
}

/// A stable insertion sort by the serializer's key order.
#[verifier::rlimit(60)]
fn sort_pairs(data: Vec<(Vec<char>, Vec<char>)>) -> (r: Vec<(Vec<char>, Vec<char>)>)
    ensures
        cpairs_view(r@) == sort_spec(cpairs_view(data@)),
{
    let ghost full = cpairs_view(data@);
    let mut rest = data;
    let mut acc: Vec<(Vec<char>, Vec<char>)> = Vec::new();
    proof {
        assert(cpairs_view(rest@) =~= full.skip(0));
        assert(cpairs_view(acc@) =~= sort_spec(full.subrange(0, 0)));
    }
    loop
        invariant
            rest@.len() <= full.len(),
            cpairs_view(rest@) == full.skip(full.len() - rest@.len()),
            cpairs_view(acc@) == sort_spec(full.subrange(0, full.len() - rest@.len())),
        ensures
            cpairs_view(acc@) == sort_spec(full),
        decreases rest@.len(),
    {
        let ghost n = full.len() - rest@.len();
        if rest.len() == 0 {
            proof {
                assert(full.subrange(0, full.len() as int) =~= full);
            }
            break;
        }
        let ghost restv = cpairs_view(rest@);
        let ghost restvec0 = rest@;
        let p = rest.remove(0);
        let ghost pk = p.0@;
        let ghost pv = p.1@;
        proof {
            assert(restv[0] == full[n as int]);
            assert((pk, pv) == full[n as int]);
            assert forall|j: int| 0 <= j < rest@.len() implies cpairs_view(rest@)[j] == full.skip(
                n + 1,
            )[j] by {
                assert(rest@[j] == restvec0[j + 1]);
                assert(cpairs_view(restvec0)[j + 1] == full.skip(n as int)[j + 1]);
                assert(full.skip(n as int)[j + 1] == full[n + 1 + j]);
            }
            assert(cpairs_view(rest@) =~= full.skip(n + 1));
        }
        let ghost accv = cpairs_view(acc@);
        let mut pos: usize = 0;
        loop
            invariant
                0 <= pos <= accv.len(),
                accv == cpairs_view(acc@),
                forall|j: int| 0 <= j < pos ==> key_cmp(accv[j].0, pk) <= 0,
                pk == p.0@,
            ensures
                accv == cpairs_view(acc@),
                pk == p.0@,
                pos as int == insert_pos(accv, pk),
            decreases accv.len() - pos,
        {
            if pos < acc.len() {
                let c = key_cmp_chars(&acc[pos].0, &p.0);
                if c > 0 {
                    proof {
                        lemma_insert_pos(accv, pk);
                        assert(key_cmp(accv[pos as int].0, pk) > 0);
                        assert(pos as int == insert_pos(accv, pk));
                    }
                    break;
                }
                pos += 1;
            } else {
                proof {
                    lemma_insert_pos(accv, pk);
                    assert(pos as int == insert_pos(accv, pk));
                }
                break;
            }
        }
        acc.insert(pos, p);
        proof {
            assert(cpairs_view(acc@) =~= insert_sorted(accv, (pk, pv)));
            let pre = full.subrange(0, n as int);
            let pre1 = full.subrange(0, n + 1);
            assert(pre1.drop_last() =~= pre);
            assert(pre1.last() == full[n as int]);
            assert(sort_spec(pre1) == insert_sorted(sort_spec(pre), (pk, pv)));
        }
    }
    acc
}

/// Writes the sorted pairs out, opening a section header whenever the
/// first key segment changes.
#[verifier::rlimit(60)]
fn emit_pairs(ps: &Vec<(Vec<char>, Vec<char>)>) -> (r: Vec<char>)
    ensures
        r@ == emit(cpairs_view(ps@), Seq::empty()),
{
    let ghost full = cpairs_view(ps@);
    let mut out: Vec<char> = Vec::new();
    let mut section: Vec<char> = Vec::new();
    let mut i: usize = 0;
    proof {
        assert(full.skip(0) =~= full);
        assert(out@.add(emit(full, Seq::empty())) =~= emit(full, Seq::empty()));
        assert(section@ =~= Seq::<char>::empty());
    }
    loop
        invariant
            0 <= i <= full.len(),
            full == cpairs_view(ps@),
            emit(full, Seq::empty()) == out@.add(emit(full.skip(i as int), section@)),
        ensures
            out@ == emit(full, Seq::empty()),
        decreases full.len() - i,
    {
        let ghost suffix = full.skip(i as int);
        let ghost out0 = out@;
        let ghost sec0 = section@;
        if i == ps.len() {
            proof {
                assert(suffix.len() == 0);
                assert(emit(suffix, sec0) == Seq::<char>::empty());
                assert(out@.add(emit(suffix, sec0)) =~= out@);
            }
            break;
        }
        let k = &ps[i].0;
        let v = &ps[i].1;
        proof {
            assert(suffix[0] == full[i as int]);
            assert((k@, v@) == full[i as int]);
            assert(suffix.drop_first() =~= full.skip(i + 1));
        }
        let d = find_dot(k, 0);
        proof {
            assert(k@.subrange(0, k@.len() as int) =~= k@);
            assert(first_dot(k@) == d);
        }
        let fv = format_value(v);
        if d == k.len() {
            push_all(&mut out, k);
            out.push(' ');
            out.push('=');
            out.push(' ');
            push_all(&mut out, &fv);
            out.push('\n');
            proof {
                let piece = k@.add(seq![' ', '=', ' ']).add(fmt_value(v@)).add(seq!['\n']);
                assert(out@ =~= out0.add(piece));
                assert(emit(suffix, sec0) == piece.add(emit(full.skip(i + 1), sec0)));
                assert(out0.add(piece).add(emit(full.skip(i + 1), sec0)) =~= out0.add(
                    emit(suffix, sec0),
                ));
            }
            i += 1;
        } else {
            let sec = copy_range(k, 0, d);
            let rest = copy_range(k, d + 1, k.len());
            let fresh = !chars_eq(&sec, &section);
            if fresh {
                out.push('[');
                push_all(&mut out, &sec);
                out.push(']');
                out.push('\n');
            }
            push_all(&mut out, &rest);
            out.push(' ');
            out.push('=');
            out.push(' ');
            push_all(&mut out, &fv);
            out.push('\n');
            section = sec;
            proof {
                let header: Seq<char> = if !fresh {
                    Seq::<char>::empty()
                } else {
                    seq!['['].add(k@.subrange(0, d as int)).add(seq![']', '\n'])
                };
                let piece = header.add(k@.subrange(d + 1, k@.len() as int)).add(
                    seq![' ', '=', ' '],
                ).add(fmt_value(v@)).add(seq!['\n']);
                assert(out@ =~= out0.add(piece));
                assert(emit(suffix, sec0) == piece.add(emit(full.skip(i + 1), section@)));
                assert(out0.add(piece).add(emit(full.skip(i + 1), section@)) =~= out0.add(
                    emit(suffix, sec0),
                ));
            }
            i += 1;
        }
    }
    out
}

/// Turn a key/value store into CNI format text.
///
/// The output will contain as few section headers as possible, but if a
/// key consists of multiple parts separated by a dot, the first one will
/// always be used for the section name.
pub fn to_str(data: &Vec<(String, String)>) -> (r: String)
    ensures
        r@ == emit(sort_spec(pairs_view(data@)), Seq::empty()),
{
    let ghost full = pairs_view(data@);
    let mut cdata: Vec<(Vec<char>, Vec<char>)> = Vec::new();
    let mut i: usize = 0;
    proof {
        assert(cpairs_view(cdata@) =~= full.subrange(0, 0));
    }
    loop
        invariant
            0 <= i <= data@.len(),
            full == pairs_view(data@),
            cpairs_view(cdata@) == full.subrange(0, i as int),
        ensures
            cpairs_view(cdata@) == full,
        decreases data@.len() - i,
    {
        if i < data.len() {
            let ghost cdata0 = cdata@;
            let kc = chars_of(data[i].0.as_str());
            let vc = chars_of(data[i].1.as_str());
            let ghost kcs = kc@;
            let ghost vcs = vc@;
            cdata.push((kc, vc));
            proof {
                assert(cpairs_view(cdata0).len() == cdata0.len());
                assert(cdata0.len() == i as int);
                assert(cdata@.len() == i + 1);
                assert forall|j: int| 0 <= j < cdata@.len() implies cpairs_view(cdata@)[j]
                    == full.subrange(0, i + 1)[j] by {
                    if j < i {
                        assert(cdata@[j] == cdata0[j]);
                        assert(cpairs_view(cdata0)[j] == full.subrange(0, i as int)[j]);
                    } else {
                        assert(cdata@[j].0@ == kcs);
                        assert(cdata@[j].1@ == vcs);
                        assert(full[j] == (data@[j].0@, data@[j].1@));
                    }
                }
                assert(cpairs_view(cdata@) =~= full.subrange(0, i + 1));
            }
            i += 1;
        } else {
            proof {
                assert(full.subrange(0, full.len() as int) =~= full);
            }
            break;
        }
    }
    let sorted = sort_pairs(cdata);
    let out = emit_pairs(&sorted);
    string_of(&out)
}

} // verus!
