//! Dumps a gathered key/value store as text, one record per entry with
//! caller-chosen separators.

use vstd::prelude::*;

use crate::parser::pairs_view;
use crate::text::chars_of;
use crate::text::push_all;
use crate::text::string_of;

verus! {

/// The text a store becomes under the separator triple: each entry as
/// `pre key mid value post`.
pub open spec fn dump_spec(
    ps: Seq<(Seq<char>, Seq<char>)>,
    pre: Seq<char>,
    mid: Seq<char>,
    post: Seq<char>,
) -> Seq<char>
    decreases ps.len(),
{
    if ps.len() == 0 {
        Seq::empty()
    } else {
        pre.add(ps[0].0).add(mid).add(ps[0].1).add(post).add(
            dump_spec(ps.drop_first(), pre, mid, post),
        )
    }
}

/// Writes every entry of the store with the given separator triple
/// around key and value.
pub fn dump(map: &Vec<(String, String)>, format: (&str, &str, &str)) -> (r: String)
    ensures
        r@ == dump_spec(pairs_view(map@), format.0@, format.1@, format.2@),
{
    let ghost full = pairs_view(map@);
    let pre = chars_of(format.0);
    let mid = chars_of(format.1);
    let post = chars_of(format.2);
    let mut out: Vec<char> = Vec::new();
    let mut i: usize = 0;
    proof {
        assert(full.skip(0) =~= full);
        assert(out@.add(dump_spec(full, pre@, mid@, post@)) =~= dump_spec(
            full,
            pre@,
            mid@,
            post@,
        ));
    }
    loop
        invariant
            0 <= i <= full.len(),
            full == pairs_view(map@),
            pre@ == format.0@,
            mid@ == format.1@,
            post@ == format.2@,
            dump_spec(full, pre@, mid@, post@) == out@.add(
                dump_spec(full.skip(i as int), pre@, mid@, post@),
            ),
        ensures
            out@ == dump_spec(full, pre@, mid@, post@),
        decreases full.len() - i,
    {
        let ghost suffix = full.skip(i as int);
        let ghost out0 = out@;
        if i == map.len() {
            proof {
                assert(suffix.len() == 0);
                assert(dump_spec(suffix, pre@, mid@, post@) == Seq::<char>::empty());
                assert(out@.add(dump_spec(suffix, pre@, mid@, post@)) =~= out@);
            }
            break;
        }
        let k = chars_of(map[i].0.as_str());
        let v = chars_of(map[i].1.as_str());
        proof {
            assert(suffix[0] == full[i as int]);
            assert(suffix.drop_first() =~= full.skip(i + 1));
        }
        push_all(&mut out, &pre);
        push_all(&mut out, &k);
        push_all(&mut out, &mid);
        push_all(&mut out, &v);
        push_all(&mut out, &post);
        proof {
            let piece = pre@.add(k@).add(mid@).add(v@).add(post@);
            assert(out@ =~= out0.add(piece));
            assert(dump_spec(suffix, pre@, mid@, post@) == piece.add(
                dump_spec(full.skip(i + 1), pre@, mid@, post@),
            ));
            assert(out0.add(piece).add(dump_spec(full.skip(i + 1), pre@, mid@, post@)) =~= out0.add(
                dump_spec(suffix, pre@, mid@, post@),
            ));
        }
        i += 1;
    }
    string_of(&out)
}

} // verus!
