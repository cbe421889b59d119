//! Formatting an object's attributes for display: the attributes are
//! sorted — `id` first, `type` second, the rest by name and value — and
//! each becomes one line `name: value` with the names padded to a common
//! width.

use crate::messages::Object;
use vstd::prelude::*;
use vstd::string::StrSliceExecFns;
use vstd::string::StringExecFns;
use vstd::string::StringSliceAdditionalSpecFns;
use vstd::utf8::encode_utf8;

verus! {

broadcast use vstd::std_specs::vec::group_vec_axioms, vstd::seq::group_seq_axioms, vstd::seq_lib::group_to_multiset_ensures;

/// Lexicographic order on byte strings.
pub open spec fn bytes_le(x: Seq<u8>, y: Seq<u8>) -> bool
    decreases x.len(),
{
    if x.len() == 0 {
        true
    } else if y.len() == 0 {
        false
    } else if x.first() < y.first() {
        true
    } else if x.first() > y.first() {
        false
    } else {
        bytes_le(x.drop_first(), y.drop_first())
    }
}

proof fn lemma_bytes_le_total(x: Seq<u8>, y: Seq<u8>)
    ensures
        bytes_le(x, y) || bytes_le(y, x),
    decreases x.len(),
{
    if x.len() > 0 && y.len() > 0 && x.first() == y.first() {
        lemma_bytes_le_total(x.drop_first(), y.drop_first());
    }
}

/// The display order on attribute pairs: `id` sorts first, `type`
/// second, and the rest compare by name, then by value, in the order of
/// their UTF-8 bytes.
pub open spec fn stat_le(a: (Seq<char>, Seq<char>), b: (Seq<char>, Seq<char>)) -> bool {
    if a.0 == "id"@ {
        true
    } else if b.0 == "id"@ {
        false
    } else if a.0 == "type"@ {
        true
    } else if b.0 == "type"@ {
        false
    } else if a.0 == b.0 {
        bytes_le(encode_utf8(a.1), encode_utf8(b.1))
    } else {
        bytes_le(encode_utf8(a.0), encode_utf8(b.0))
    }
}

/// Any two attribute pairs are ordered, one way or the other.
pub proof fn lemma_stat_le_total(a: (Seq<char>, Seq<char>), b: (Seq<char>, Seq<char>))
    ensures
        stat_le(a, b) || stat_le(b, a),
{
    if a.0 != "id"@ && b.0 != "id"@ && a.0 != "type"@ && b.0 != "type"@ {
        if a.0 == b.0 {
            lemma_bytes_le_total(encode_utf8(a.1), encode_utf8(b.1));
        } else {
            lemma_bytes_le_total(encode_utf8(a.0), encode_utf8(b.0));
        }
    }
}

fn bytes_le_from(x: &[u8], y: &[u8], i: usize) -> (r: bool)
    requires
        i <= x@.len(),
        i <= y@.len(),
    ensures
        r == bytes_le(x@.skip(i as int), y@.skip(i as int)),
    decreases x@.len() - i,
{
    proof {
        assert(x@.skip(i as int).len() == x@.len() - i);
        assert(y@.skip(i as int).len() == y@.len() - i);
        if i < x@.len() {
            assert(x@.skip(i as int).first() == x@[i as int]);
            assert(x@.skip(i as int).drop_first() =~= x@.skip(i + 1));
        }
        if i < y@.len() {
            assert(y@.skip(i as int).first() == y@[i as int]);
            assert(y@.skip(i as int).drop_first() =~= y@.skip(i + 1));
        }
    }
    if i >= x.len() {
        true
    } else if i >= y.len() {
        false
    } else if x[i] < y[i] {
        true
    } else if x[i] > y[i] {
        false
    } else {
        bytes_le_from(x, y, i + 1)
    }
}

fn stat_le_exec(a: &(String, String), b: &(String, String)) -> (r: bool)
    ensures
        r == stat_le((a.0@, a.1@), (b.0@, b.1@)),
{
    if crate::messages::str_eq_str(a.0.as_str(), "id") {
        true
    } else if crate::messages::str_eq_str(b.0.as_str(), "id") {
        false
    } else if crate::messages::str_eq_str(a.0.as_str(), "type") {
        true
    } else if crate::messages::str_eq_str(b.0.as_str(), "type") {
        false
    } else if crate::messages::string_eq(&a.0, &b.0) {
        let r = bytes_le_from(a.1.as_str().as_bytes(), b.1.as_str().as_bytes(), 0);
        proof {
            assert(encode_utf8(a.1@).skip(0) =~= encode_utf8(a.1@));
            assert(encode_utf8(b.1@).skip(0) =~= encode_utf8(b.1@));
        }
        r
    } else {
        let r = bytes_le_from(a.0.as_str().as_bytes(), b.0.as_str().as_bytes(), 0);
        proof {
            assert(encode_utf8(a.0@).skip(0) =~= encode_utf8(a.0@));
            assert(encode_utf8(b.0@).skip(0) =~= encode_utf8(b.0@));
        }
        r
    }
}

/// Each pair is ordered before its neighbour.
pub open spec fn adjacent_sorted(es: Seq<(Seq<char>, Seq<char>)>) -> bool {
    forall|i: int| 0 <= i < es.len() - 1 ==> #[trigger] stat_le(es[i], es[i + 1])
}

proof fn lemma_insert_to_multiset<A>(s: Seq<A>, i: int, x: A)
    requires
        0 <= i <= s.len(),
    ensures
        s.insert(i, x).to_multiset() == s.to_multiset().insert(x),
{
    broadcast use vstd::seq_lib::group_to_multiset_ensures;

    let ins = s.insert(i, x);
    assert(ins.remove(i) =~= s);
    assert(ins[i] == x);
    assert(ins.contains(x));
    assert(ins.remove(i).to_multiset() =~= ins.to_multiset().remove(x));
    assert(ins.to_multiset().count(x) > 0);
    assert(ins.to_multiset() =~= s.to_multiset().insert(x));
}

/// The views of a pair list.
pub open spec fn pair_views(v: Seq<(String, String)>) -> Seq<(Seq<char>, Seq<char>)> {
    v.map_values(|e: (String, String)| (e.0@, e.1@))
}

fn sort_pairs(input: Vec<(String, String)>) -> (r: Vec<(String, String)>)
    ensures
        adjacent_sorted(pair_views(r@)),
        pair_views(r@).to_multiset() == pair_views(input@).to_multiset(),
{
    let mut rest = input;
    let mut out: Vec<(String, String)> = Vec::new();
    proof {
        assert(pair_views(out@) =~= Seq::<(Seq<char>, Seq<char>)>::empty());
    }
    loop
        invariant
            adjacent_sorted(pair_views(out@)),
            pair_views(out@).to_multiset().add(pair_views(rest@).to_multiset()) == pair_views(
                input@,
            ).to_multiset(),
        decreases rest@.len(),
    {
        let ghost pre_rest = pair_views(rest@);
        let e = match rest.pop() {
            Some(e) => e,
            None => {
                proof {
                    assert(pair_views(rest@) =~= Seq::<(Seq<char>, Seq<char>)>::empty());
                    assert(pair_views(rest@).to_multiset().len() == 0);
                    assert forall|a: (Seq<char>, Seq<char>)|
                        pair_views(out@).to_multiset().add(
                            pair_views(rest@).to_multiset(),
                        ).count(a) == #[trigger] pair_views(out@).to_multiset().count(a) by {
                        assert(pair_views(rest@).to_multiset().count(a) == 0);
                    }
                    assert(pair_views(out@).to_multiset() =~= pair_views(input@).to_multiset());
                }
                return out;
            },
        };
        proof {
            assert(pre_rest =~= pair_views(rest@).push((e.0@, e.1@)));
            assert(pair_views(rest@).push((e.0@, e.1@)).to_multiset() =~= pair_views(
                rest@,
            ).to_multiset().insert((e.0@, e.1@)));
        }
        let n = out.len();
        let mut p: usize = 0;
        let mut found = false;
        while !found && p < n
            invariant
                p <= n == out@.len(),
                found ==> p < n && stat_le((e.0@, e.1@), pair_views(out@)[p as int]),
                forall|q: int|
                    0 <= q < p ==> !stat_le((e.0@, e.1@), #[trigger] pair_views(out@)[q]),
            decreases n - p, (if found { 0int } else { 1int }),
        {
            proof {
                assert(pair_views(out@)[p as int] == (out@[p as int].0@, out@[p as int].1@));
            }
            if stat_le_exec(&e, &out[p]) {
                found = true;
            } else {
                p = p + 1;
            }
        }
        let ghost before = pair_views(out@);
        let ghost ev = (e.0@, e.1@);
        let ghost pos = p as int;
        out.insert(p, e);
        proof {
            let after = pair_views(out@);
            assert(after =~= before.insert(pos, ev));
            lemma_insert_to_multiset(before, pos, ev);
            assert forall|i: int| 0 <= i < after.len() - 1 implies #[trigger] stat_le(
                after[i],
                after[i + 1],
            ) by {
                if i + 1 < pos {
                    assert(after[i] == before[i]);
                    assert(after[i + 1] == before[i + 1]);
                    assert(stat_le(before[i], before[i + 1]));
                } else if i + 1 == pos {
                    assert(after[i] == before[i]);
                    assert(after[i + 1] == ev);
                    assert(!stat_le(ev, before[i]));
                    lemma_stat_le_total(before[i], ev);
                } else if i == pos {
                    assert(pos < before.len());
                    assert(found);
                    assert(after[i] == ev);
                    assert(after[i + 1] == before[i]);
                    assert(stat_le(ev, before[i]));
                } else {
                    assert(after[i] == before[i - 1]);
                    assert(after[i + 1] == before[i]);
                    let q = i - 1;
                    assert(stat_le(before[q], before[q + 1]));
                }
            }
            assert(after.to_multiset().add(pair_views(rest@).to_multiset()) =~= pair_views(
                input@,
            ).to_multiset());
        }
    }
}

/// The widest attribute name, measured in UTF-8 bytes.
pub open spec fn width_of(es: Seq<(Seq<char>, Seq<char>)>) -> int
    decreases es.len(),
{
    if es.len() == 0 {
        0
    } else {
        let rest = width_of(es.drop_last());
        let last = encode_utf8(es.last().0).len() as int;
        if last > rest {
            last
        } else {
            rest
        }
    }
}

/// A run of spaces.
pub open spec fn spaces(n: int) -> Seq<char>
    decreases n,
{
    if n <= 0 {
        Seq::empty()
    } else {
        spaces(n - 1).push(' ')
    }
}

/// One display line: the attribute name, padded with spaces to the
/// common width, a separating colon, and the value.
pub open spec fn stat_line(attr: Seq<char>, value: Seq<char>, width: int) -> Seq<char> {
    attr + spaces(width - encode_utf8(attr).len()) + ": "@ + value
}

/// The display lines for a list of attribute pairs, in order.
pub open spec fn stat_lines(es: Seq<(Seq<char>, Seq<char>)>, width: int) -> Seq<Seq<char>>
    decreases es.len(),
{
    if es.len() == 0 {
        Seq::empty()
    } else {
        stat_lines(es.drop_last(), width).push(stat_line(es.last().0, es.last().1, width))
    }
}

fn stat_line_exec(attr: &String, value: &String, width: usize) -> (r: String)
    ensures
        r@ == stat_line(attr@, value@, width as int),
{
    let mut r = attr.as_str().to_owned();
    let byte_len = attr.as_str().as_bytes().len();
    let ghost target = width - encode_utf8(attr@).len();
    let target_pad: usize = if width > byte_len {
        width - byte_len
    } else {
        0
    };
    let mut pad: usize = 0;
    proof {
        reveal_strlit(" ");
        assert(r@ =~= attr@ + spaces(0));
    }
    while pad < target_pad
        invariant
            byte_len == encode_utf8(attr@).len(),
            target_pad == if width > byte_len {
                (width - byte_len) as usize
            } else {
                0usize
            },
            pad <= target_pad,
            r@ == attr@ + spaces(pad as int),
        decreases target_pad - pad,
    {
        r.append(" ");
        proof {
            reveal_strlit(" ");
            assert(" "@ =~= seq![' ']);
            assert(r@ =~= attr@ + spaces(pad + 1));
        }
        pad = pad + 1;
    }
    r.append(": ");
    r.append(value.as_str());
    proof {
        assert(pad as int == if target > 0 {
            target
        } else {
            0
        });
        assert(spaces(pad as int) == spaces(target));
        assert(r@ =~= stat_line(attr@, value@, width as int));
    }
    r
}

/// Renders an object's attributes for display: one line per attribute,
/// the `id` attribute first, `type` second and the rest ordered by name
/// and value, every name padded to the width of the widest.
pub fn sort_stats(object: &Object) -> (r: Vec<String>)
    requires
        object.wf(),
    ensures
        exists|es: Seq<(Seq<char>, Seq<char>)>|
            {
                &&& es.to_multiset() == object.entries_view().to_multiset()
                &&& adjacent_sorted(es)
                &&& r@.map_values(|t: String| t@) == stat_lines(es, width_of(es))
            },
{
    let n = object.len();
    let mut pairs: Vec<(String, String)> = Vec::new();
    let mut k: usize = 0;
    proof {
        assert(pair_views(pairs@) =~= object.entries_view().take(0));
    }
    while k < n
        invariant
            k <= n == object.entries_view().len(),
            object.wf(),
            pair_views(pairs@) == object.entries_view().take(k as int),
        decreases n - k,
    {
        let (key, value) = object.entry_at(k);
        let ghost prior = pairs@;
        pairs.push((key.clone(), value.clone()));
        proof {
            assert(pairs@.drop_last() =~= prior);
            assert(pairs@.len() == prior.len() + 1);
            assert(pair_views(prior).len() == prior.len());
            assert(pair_views(prior) == object.entries_view().take(k as int));
            assert(prior.len() == k as int);
            assert(pair_views(pairs@).len() == k + 1);
            assert(pair_views(pairs@)[k as int] == (key@, value@));
            assert(pair_views(pairs@)[k as int] == object.entries_view()[k as int]);
            assert(pair_views(pairs@) =~= object.entries_view().take(k + 1));
        }
        k = k + 1;
    }
    proof {
        assert(object.entries_view().take(n as int) =~= object.entries_view());
    }
    let sorted = sort_pairs(pairs);
    let ghost es = pair_views(sorted@);

    let mut longest: usize = 0;
    let count = sorted.len();
    let mut i: usize = 0;
    proof {
        assert(es.take(0) =~= Seq::<(Seq<char>, Seq<char>)>::empty());
    }
    while i < count
        invariant
            i <= count == es.len(),
            es == pair_views(sorted@),
            longest == width_of(es.take(i as int)),
        decreases count - i,
    {
        let len = sorted[i].0.as_str().as_bytes().len();
        proof {
            assert(es[i as int] == (sorted@[i as int].0@, sorted@[i as int].1@));
            assert(es.take(i + 1).drop_last() =~= es.take(i as int));
            assert(es.take(i + 1).last() == es[i as int]);
        }
        if len > longest {
            longest = len;
        }
        i = i + 1;
    }
    proof {
        assert(es.take(count as int) =~= es);
    }

    let mut lines: Vec<String> = Vec::new();
    let mut j: usize = 0;
    proof {
        assert(lines@.map_values(|t: String| t@) =~= stat_lines(es.take(0), width_of(es)));
    }
    while j < count
        invariant
            j <= count == es.len(),
            es == pair_views(sorted@),
            longest == width_of(es),
            lines@.map_values(|t: String| t@) == stat_lines(es.take(j as int), width_of(es)),
        decreases count - j,
    {
        let line = stat_line_exec(&sorted[j].0, &sorted[j].1, longest);
        lines.push(line);
        proof {
            assert(es[j as int] == (sorted@[j as int].0@, sorted@[j as int].1@));
            assert(line@ == stat_line(es[j as int].0, es[j as int].1, width_of(es)));
            assert(es.take(j + 1).drop_last() =~= es.take(j as int));
            assert(es.take(j + 1).last() == es[j as int]);
            assert(lines@.map_values(|t: String| t@) =~= stat_lines(
                es.take(j + 1),
                width_of(es),
            ));
        }
        j = j + 1;
    }
    proof {
        assert(es.take(count as int) =~= es);
        assert(es.to_multiset() == object.entries_view().to_multiset());
    }
    lines
}

} // verus!
