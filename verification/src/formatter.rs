//! Shows a gathered key/value store in one of the output formats of
//! the command line tool: CNI text with an optional section threshold,
//! or a custom record layout.

use vstd::prelude::*;

use crate::api::starts_with;
use crate::api::starts_with_chars;
use crate::api::sub_leaves;
use crate::api::sub_leaves_spec;
use crate::api::sub_tree;
use crate::api::sub_tree_spec;
use crate::api::section_tree;
use crate::api::section_tree_spec;
use crate::api::names_view;
use crate::format::fmt_value;
use crate::format::format_value;
use crate::format::has_dot;
use crate::format::lex_cmp;
use crate::format::lex_cmp_chars;
use crate::parser::pairs_view;
use crate::text::chars_of;
use crate::text::push_all;
use crate::text::string_of;

verus! {

/// How the combined store is shown.
pub enum Format {
    /// CNI text. The number is the section threshold: how many items a
    /// section must hold before a section heading is used; zero means
    /// no section headings at all.
    Cni(usize),
    /// If the first part is `None`, the key is not printed; if the
    /// second is `None`, the value is not printed; the third ends each
    /// record.
    Custom(Option<String>, Option<String>, String),
}

/// Plain CNI lines for the store, in order, with no section headings.
pub open spec fn print_cni_spec(ps: Seq<(Seq<char>, Seq<char>)>) -> Seq<char>
    decreases ps.len(),
{
    if ps.len() == 0 {
        Seq::empty()
    } else {
        ps[0].0.add(seq![' ', '=', ' ']).add(fmt_value(ps[0].1)).add(seq!['\n']).add(
            print_cni_spec(ps.drop_first()),
        )
    }
}

/// One record of the custom format.
pub open spec fn custom_record(
    p: (Seq<char>, Seq<char>),
    pre: Option<String>,
    mid: Option<String>,
    post: Seq<char>,
) -> Seq<char> {
    let a: Seq<char> = match pre {
        Some(x) => p.0.add(x@),
        None => Seq::empty(),
    };
    let b: Seq<char> = match mid {
        Some(x) => p.1.add(x@),
        None => Seq::empty(),
    };
    a.add(b).add(post)
}

/// The whole store in the custom format.
pub open spec fn custom_spec(
    ps: Seq<(Seq<char>, Seq<char>)>,
    pre: Option<String>,
    mid: Option<String>,
    post: Seq<char>,
) -> Seq<char>
    decreases ps.len(),
{
    if ps.len() == 0 {
        Seq::empty()
    } else {
        custom_record(ps[0], pre, mid, post).add(custom_spec(ps.drop_first(), pre, mid, post))
    }
}

/// The entries whose keys hold a dot.
pub open spec fn dotted_spec(ps: Seq<(Seq<char>, Seq<char>)>) -> Seq<(Seq<char>, Seq<char>)>
    decreases ps.len(),
{
    if ps.len() == 0 {
        Seq::empty()
    } else if has_dot(ps[0].0) {
        seq![ps[0]].add(dotted_spec(ps.drop_first()))
    } else {
        dotted_spec(ps.drop_first())
    }
}

/// The entries that do not lie below the section.
pub open spec fn outside_spec(
    ps: Seq<(Seq<char>, Seq<char>)>,
    sec: Seq<char>,
) -> Seq<(Seq<char>, Seq<char>)>
    decreases ps.len(),
{
    if ps.len() == 0 {
        Seq::empty()
    } else if !starts_with(ps[0].0, sec.push('.')) {
        seq![ps[0]].add(outside_spec(ps.drop_first(), sec))
    } else {
        outside_spec(ps.drop_first(), sec)
    }
}

/// The section order of the threshold output: longer names first, ties
/// alphabetically.
pub open spec fn sec_before(a: Seq<char>, b: Seq<char>) -> bool {
    a.len() > b.len() || (a.len() == b.len() && lex_cmp(a, b) <= 0)
}

/// Where a name goes under the section order.
pub open spec fn sec_pos(xs: Seq<Seq<char>>, t: Seq<char>) -> int
    decreases xs.len(),
{
    if xs.len() == 0 {
        0
    } else if !sec_before(xs[0], t) {
        0
    } else {
        1 + sec_pos(xs.drop_first(), t)
    }
}

/// A stable insertion sort of the section names under the section
/// order.
pub open spec fn sec_sort_spec(xs: Seq<Seq<char>>) -> Seq<Seq<char>>
    decreases xs.len(),
{
    if xs.len() == 0 {
        Seq::empty()
    } else {
        let ys = sec_sort_spec(xs.drop_last());
        let i = sec_pos(ys, xs.last());
        ys.subrange(0, i).add(seq![xs.last()]).add(ys.subrange(i, ys.len() as int))
    }
}

/// Walks the ordered section names over the remaining dotted entries:
/// a section with at least `n` entries is written with its heading and
/// taken out of the store.
pub open spec fn walk_secs_spec(
    secs: Seq<Seq<char>>,
    idx: int,
    m: Seq<(Seq<char>, Seq<char>)>,
    n: int,
) -> (Seq<char>, Seq<(Seq<char>, Seq<char>)>)
    decreases secs.len() - idx,
    when 0 <= idx
{
    if idx >= secs.len() {
        (Seq::empty(), m)
    } else {
        let sec = secs[idx];
        let st = sub_tree_spec(m, sec);
        if st.len() >= n {
            let txt = seq!['['].add(sec).add(seq![']', '\n']).add(print_cni_spec(st));
            let rec = walk_secs_spec(secs, idx + 1, outside_spec(m, sec), n);
            (txt.add(rec.0), rec.1)
        } else {
            walk_secs_spec(secs, idx + 1, m, n)
        }
    }
}

/// The threshold output: top-level leaves first, then every section
/// large enough under its heading, then whatever remains.
pub open spec fn cni_sections_spec(ps: Seq<(Seq<char>, Seq<char>)>, n: int) -> Seq<char> {
    let leaves = sub_leaves_spec(ps, Seq::empty());
    let dotted = dotted_spec(ps);
    let secs = sec_sort_spec(section_tree_spec(dotted, Seq::empty(), Seq::empty()));
    let walked = walk_secs_spec(secs, 0, dotted, n);
    print_cni_spec(leaves).add(walked.0).add(print_cni_spec(walked.1))
}

/// What `format` produces for each output format.
pub open spec fn format_spec(ps: Seq<(Seq<char>, Seq<char>)>, f: Format) -> Seq<char> {
    match f {
        Format::Cni(n) => if n == 0 {
            print_cni_spec(ps)
        } else {
            cni_sections_spec(ps, n as int)
        },
        Format::Custom(pre, mid, post) => custom_spec(ps, pre, mid, post@),
    }
}

/// Plain CNI lines for the store.
fn print_cni(map: &Vec<(String, String)>) -> (r: Vec<char>)
    ensures
        r@ == print_cni_spec(pairs_view(map@)),
{
    let ghost full = pairs_view(map@);
    let mut out: Vec<char> = Vec::new();
    let mut i: usize = 0;
    proof {
        assert(full.skip(0) =~= full);
        assert(out@.add(print_cni_spec(full)) =~= print_cni_spec(full));
    }
    loop
        invariant
            0 <= i <= full.len(),
            full == pairs_view(map@),
            print_cni_spec(full) == out@.add(print_cni_spec(full.skip(i as int))),
        ensures
            out@ == print_cni_spec(full),
        decreases full.len() - i,
    {
        let ghost suffix = full.skip(i as int);
        let ghost out0 = out@;
        if i == map.len() {
            proof {
                assert(suffix.len() == 0);
                assert(print_cni_spec(suffix) == Seq::<char>::empty());
                assert(out@.add(print_cni_spec(suffix)) =~= out@);
            }
            break;
        }
        let k = chars_of(map[i].0.as_str());
        let v = chars_of(map[i].1.as_str());
        proof {
            assert(suffix[0] == full[i as int]);
            assert(suffix.drop_first() =~= full.skip(i + 1));
        }
        let fv = format_value(&v);
        push_all(&mut out, &k);
        out.push(' ');
        out.push('=');
        out.push(' ');
        push_all(&mut out, &fv);
        out.push('\n');
        proof {
            let piece = k@.add(seq![' ', '=', ' ']).add(fmt_value(v@)).add(seq!['\n']);
            assert(out@ =~= out0.add(piece));
            assert(print_cni_spec(suffix) == piece.add(print_cni_spec(full.skip(i + 1))));
            assert(out0.add(piece).add(print_cni_spec(full.skip(i + 1))) =~= out0.add(
                print_cni_spec(suffix),
            ));
        }
        i += 1;
    }
    out
}

/// The entries whose keys hold a dot.
fn dotted_entries(map: &Vec<(String, String)>) -> (r: Vec<(String, String)>)
    ensures
        pairs_view(r@) == dotted_spec(pairs_view(map@)),
{
    let ghost full = pairs_view(map@);
    let mut r: Vec<(String, String)> = Vec::new();
    let mut i: usize = 0;
    proof {
        assert(full.skip(0) =~= full);
        assert(pairs_view(r@) =~= Seq::<(Seq<char>, Seq<char>)>::empty());
    }
    loop
        invariant
            0 <= i <= full.len(),
            full == pairs_view(map@),
            dotted_spec(full) == pairs_view(r@).add(dotted_spec(full.skip(i as int))),
        ensures
            pairs_view(r@) == dotted_spec(full),
        decreases full.len() - i,
    {
        let ghost suffix = full.skip(i as int);
        let ghost acc0 = pairs_view(r@);
        if i == map.len() {
            proof {
                assert(suffix.len() == 0);
                assert(dotted_spec(suffix) == Seq::<(Seq<char>, Seq<char>)>::empty());
                assert(acc0.add(dotted_spec(suffix)) =~= acc0);
            }
            break;
        }
        let k = chars_of(map[i].0.as_str());
        proof {
            assert(suffix[0] == full[i as int]);
            assert(suffix.drop_first() =~= full.skip(i + 1));
        }
        let kd = crate::api::dotted_from(&k, 0);
        proof {
            assert(crate::api::tail_from(k@, 0) =~= k@);
        }
        if kd {
            r.push((string_of(&k), map[i].1.clone()));
            proof {
                assert(pairs_view(r@) =~= acc0.push((k@, full[i as int].1)));
                assert(acc0.push((k@, full[i as int].1)).add(dotted_spec(full.skip(i + 1)))
                    =~= acc0.add(dotted_spec(suffix)));
            }
        }
        i += 1;
    }
    r
}

/// The entries that do not lie below the section.
fn outside_entries(map: &Vec<(String, String)>, sec: &Vec<char>) -> (r: Vec<(String, String)>)
    ensures
        pairs_view(r@) == outside_spec(pairs_view(map@), sec@),
{
    let ghost full = pairs_view(map@);
    let mut secdot = sec.clone();
    let ghost sd0 = secdot@;
    secdot.push('.');
    proof {
        assert(secdot@ =~= sec@.push('.'));
    }
    let mut r: Vec<(String, String)> = Vec::new();
    let mut i: usize = 0;
    proof {
        assert(full.skip(0) =~= full);
        assert(pairs_view(r@) =~= Seq::<(Seq<char>, Seq<char>)>::empty());
    }
    loop
        invariant
            0 <= i <= full.len(),
            full == pairs_view(map@),
            secdot@ == sec@.push('.'),
            outside_spec(full, sec@) == pairs_view(r@).add(
                outside_spec(full.skip(i as int), sec@),
            ),
        ensures
            pairs_view(r@) == outside_spec(full, sec@),
        decreases full.len() - i,
    {
        let ghost suffix = full.skip(i as int);
        let ghost acc0 = pairs_view(r@);
        if i == map.len() {
            proof {
                assert(suffix.len() == 0);
                assert(outside_spec(suffix, sec@) == Seq::<(Seq<char>, Seq<char>)>::empty());
                assert(acc0.add(outside_spec(suffix, sec@)) =~= acc0);
            }
            break;
        }
        let k = chars_of(map[i].0.as_str());
        proof {
            assert(suffix[0] == full[i as int]);
            assert(suffix.drop_first() =~= full.skip(i + 1));
        }
        if !starts_with_chars(&k, &secdot) {
            r.push((string_of(&k), map[i].1.clone()));
            proof {
                assert(pairs_view(r@) =~= acc0.push((k@, full[i as int].1)));
                assert(acc0.push((k@, full[i as int].1)).add(
                    outside_spec(full.skip(i + 1), sec@),
                ) =~= acc0.add(outside_spec(suffix, sec@)));
            }
        }
        i += 1;
    }
    r
}

/// Sorts the section names: longer names first, ties alphabetically.
fn sec_sort(names: Vec<String>) -> (r: Vec<String>)
    ensures
        names_view(r@) == sec_sort_spec(names_view(names@)),
{
    let ghost full = names_view(names@);
    let mut rest = names;
    let mut acc: Vec<String> = Vec::new();
    proof {
        assert(names_view(rest@) =~= full.skip(0));
        assert(names_view(acc@) =~= sec_sort_spec(full.subrange(0, 0)));
    }
    loop
        invariant
            rest@.len() <= full.len(),
            names_view(rest@) == full.skip(full.len() - rest@.len()),
            names_view(acc@) == sec_sort_spec(full.subrange(0, full.len() - rest@.len())),
        ensures
            names_view(acc@) == sec_sort_spec(full),
        decreases rest@.len(),
    {
        let ghost n = full.len() - rest@.len();
        if rest.len() == 0 {
            proof {
                assert(full.subrange(0, full.len() as int) =~= full);
            }
            break;
        }
        let ghost restv = names_view(rest@);
        let ghost restvec0 = rest@;
        let p = rest.remove(0);
        let ghost pk = p@;
        proof {
            assert(restv[0] == full[n as int]);
            assert forall|j: int| 0 <= j < rest@.len() implies names_view(rest@)[j] == full.skip(
                n + 1,
            )[j] by {
                assert(rest@[j] == restvec0[j + 1]);
                assert(names_view(restvec0)[j + 1] == full.skip(n as int)[j + 1]);
                assert(full.skip(n as int)[j + 1] == full[n + 1 + j]);
            }
            assert(names_view(rest@) =~= full.skip(n + 1));
        }
        let ghost accv = names_view(acc@);
        let pc = chars_of(p.as_str());
        let mut pos: usize = 0;
        loop
            invariant
                0 <= pos <= accv.len(),
                accv == names_view(acc@),
                pc@ == pk,
                forall|j: int| 0 <= j < pos ==> sec_before(accv[j], pk),
            ensures
                accv == names_view(acc@),
                pos as int == sec_pos(accv, pk),
            decreases accv.len() - pos,
        {
            if pos < acc.len() {
                let qc = chars_of(acc[pos].as_str());
                let longer = qc.len() > pc.len();
                let tie = qc.len() == pc.len() && lex_cmp_chars(&qc, &pc) <= 0;
                proof {
                    assert(names_view(acc@).len() == acc@.len());
                    assert(accv[pos as int] == acc@[pos as int]@);
                }
                if !(longer || tie) {
                    proof {
                        lemma_sec_pos(accv, pk);
                        assert(!sec_before(accv[pos as int], pk));
                        assert(pos as int == sec_pos(accv, pk));
                    }
                    break;
                }
                pos += 1;
            } else {
                proof {
                    lemma_sec_pos(accv, pk);
                    assert(pos as int == sec_pos(accv, pk));
                }
                break;
            }
        }
        let ghost accvec0 = acc@;
        acc.insert(pos, p);
        proof {
            assert(names_view(accvec0).len() == accvec0.len());
            assert forall|j: int| 0 <= j < acc@.len() implies names_view(acc@)[j] == accv.subrange(
                0,
                pos as int,
            ).add(seq![pk]).add(accv.subrange(pos as int, accv.len() as int))[j] by {
                if j < pos {
                    assert(acc@[j] == accvec0[j]);
                    assert(names_view(accvec0)[j] == accvec0[j]@);
                } else if j > pos {
                    assert(acc@[j] == accvec0[j - 1]);
                    assert(names_view(accvec0)[j - 1] == accvec0[j - 1]@);
                } else {
                    assert(acc@[j]@ == pk);
                }
            }
            assert(names_view(acc@) =~= accv.subrange(0, pos as int).add(seq![pk]).add(
                accv.subrange(pos as int, accv.len() as int),
            ));
            let pre = full.subrange(0, n as int);
            let pre1 = full.subrange(0, n + 1);
            assert(pre1.drop_last() =~= pre);
            assert(pre1.last() == full[n as int]);
        }
    }
    acc
}

/// `sec_pos` keeps everything ordered-before to the left and lands on
/// the first name that is not.
proof fn lemma_sec_pos(xs: Seq<Seq<char>>, t: Seq<char>)
    ensures
        0 <= sec_pos(xs, t) <= xs.len(),
        sec_pos(xs, t) < xs.len() ==> !sec_before(xs[sec_pos(xs, t)], t),
        forall|j: int| 0 <= j < sec_pos(xs, t) ==> sec_before(xs[j], t),
    decreases xs.len(),
{
    if xs.len() > 0 && sec_before(xs[0], t) {
        lemma_sec_pos(xs.drop_first(), t);
        assert forall|j: int| 0 <= j < sec_pos(xs, t) implies sec_before(xs[j], t) by {
            if j > 0 {
                assert(xs.drop_first()[j - 1] == xs[j]);
            }
        }
    }
}

/// Reads in the combined store and shows it in the specified format.
#[verifier::rlimit(60)]
pub fn format(map: &Vec<(String, String)>, fmt: Format) -> (r: String)
    ensures
        r@ == format_spec(pairs_view(map@), fmt),
{
    match fmt {
        Format::Cni(n) => {
            if n == 0 {
                let out = print_cni(map);
                string_of(&out)
            } else {
                proof {
                    reveal_strlit("");
                    assert(""@ =~= Seq::<char>::empty());
                }
                // print the leaves of the top level first
                let leaves = sub_leaves(map, "");
                let head = print_cni(&leaves);
                let dotted = dotted_entries(map);
                let ghost dotted0 = pairs_view(dotted@);
                let secs = sec_sort(section_tree(&dotted, ""));
                let ghost secsv = names_view(secs@);
                let mut mid_out: Vec<char> = Vec::new();
                let mut m = dotted;
                let mut i: usize = 0;
                proof {
                    assert(mid_out@.add(walk_secs_spec(secsv, 0, dotted0, n as int).0)
                        =~= walk_secs_spec(secsv, 0, dotted0, n as int).0);
                }
                loop
                    invariant
                        0 <= i <= secsv.len(),
                        secsv == names_view(secs@),
                        n > 0,
                        walk_secs_spec(secsv, 0, dotted0, n as int).0 == mid_out@.add(
                            walk_secs_spec(secsv, i as int, pairs_view(m@), n as int).0,
                        ),
                        walk_secs_spec(secsv, 0, dotted0, n as int).1 == walk_secs_spec(
                            secsv,
                            i as int,
                            pairs_view(m@),
                            n as int,
                        ).1,
                    ensures
                        mid_out@ == walk_secs_spec(secsv, 0, dotted0, n as int).0,
                        pairs_view(m@) == walk_secs_spec(secsv, 0, dotted0, n as int).1,
                    decreases secsv.len() - i,
                {
                    let ghost mv = pairs_view(m@);
                    let ghost mid0 = mid_out@;
                    if i == secs.len() {
                        proof {
                            assert(walk_secs_spec(secsv, i as int, mv, n as int) == (
                                Seq::<char>::empty(),
                                mv,
                            ));
                            assert(mid_out@.add(Seq::<char>::empty()) =~= mid_out@);
                        }
                        break;
                    }
                    let sec = chars_of(secs[i].as_str());
                    proof {
                        assert(secsv[i as int] == secs@[i as int]@);
                    }
                    let st = sub_tree(&m, secs[i].as_str());
                    proof {
                        assert(pairs_view(st@).len() == st@.len());
                    }
                    if st.len() >= n {
                        mid_out.push('[');
                        push_all(&mut mid_out, &sec);
                        mid_out.push(']');
                        mid_out.push('\n');
                        let inner = print_cni(&st);
                        push_all(&mut mid_out, &inner);
                        let m2 = outside_entries(&m, &sec);
                        m = m2;
                        proof {
                            let piece = seq!['['].add(secsv[i as int]).add(seq![']', '\n']).add(
                                print_cni_spec(sub_tree_spec(mv, secsv[i as int])),
                            );
                            assert(mid_out@ =~= mid0.add(piece));
                            let rec = walk_secs_spec(secsv, i + 1, pairs_view(m@), n as int);
                            assert(walk_secs_spec(secsv, i as int, mv, n as int).0 == piece.add(
                                rec.0,
                            ));
                            assert(mid0.add(piece).add(rec.0) =~= mid0.add(
                                walk_secs_spec(secsv, i as int, mv, n as int).0,
                            ));
                        }
                    }
                    i += 1;
                }
                let tail = print_cni(&m);
                let mut out = head;
                push_all(&mut out, &mid_out);
                push_all(&mut out, &tail);
                proof {
                    assert(out@ =~= print_cni_spec(
                        sub_leaves_spec(pairs_view(map@), Seq::empty()),
                    ).add(walk_secs_spec(secsv, 0, dotted0, n as int).0).add(
                        print_cni_spec(walk_secs_spec(secsv, 0, dotted0, n as int).1),
                    ));
                }
                string_of(&out)
            }
        },
        Format::Custom(pre, mid, post) => {
            let ghost full = pairs_view(map@);
            let postc = chars_of(post.as_str());
            let mut out: Vec<char> = Vec::new();
            let mut i: usize = 0;
            proof {
                assert(full.skip(0) =~= full);
                assert(out@.add(custom_spec(full, pre, mid, postc@)) =~= custom_spec(
                    full,
                    pre,
                    mid,
                    postc@,
                ));
            }
            loop
                invariant
                    0 <= i <= full.len(),
                    full == pairs_view(map@),
                    postc@ == post@,
                    custom_spec(full, pre, mid, post@) == out@.add(
                        custom_spec(full.skip(i as int), pre, mid, post@),
                    ),
                ensures
                    out@ == custom_spec(full, pre, mid, post@),
                decreases full.len() - i,
            {
                let ghost suffix = full.skip(i as int);
                let ghost out0 = out@;
                if i == map.len() {
                    proof {
                        assert(suffix.len() == 0);
                        assert(custom_spec(suffix, pre, mid, post@) == Seq::<char>::empty());
                        assert(out@.add(custom_spec(suffix, pre, mid, post@)) =~= out@);
                    }
                    break;
                }
                proof {
                    assert(suffix[0] == full[i as int]);
                    assert(suffix.drop_first() =~= full.skip(i + 1));
                }
                match &pre {
                    Some(x) => {
                        let k = chars_of(map[i].0.as_str());
                        push_all(&mut out, &k);
                        let xc = chars_of(x.as_str());
                        push_all(&mut out, &xc);
                    },
                    None => {},
                }
                match &mid {
                    Some(x) => {
                        let v = chars_of(map[i].1.as_str());
                        push_all(&mut out, &v);
                        let xc = chars_of(x.as_str());
                        push_all(&mut out, &xc);
                    },
                    None => {},
                }
                push_all(&mut out, &postc);
                proof {
                    let piece = custom_record(full[i as int], pre, mid, post@);
                    assert(out@ =~= out0.add(piece));
                    assert(custom_spec(suffix, pre, mid, post@) == piece.add(
                        custom_spec(full.skip(i + 1), pre, mid, post@),
                    ));
                    assert(out0.add(piece).add(custom_spec(full.skip(i + 1), pre, mid, post@))
                        =~= out0.add(custom_spec(suffix, pre, mid, post@)));
                }
                i += 1;
            }
            string_of(&out)
        },
    }
}

} // verus!
