//! A stable ordering of projected rows by a lexicographic key.
//!
//! A key is a sequence of integers: a number followed by texts, each text as
//! its character codes closed by `-1`. Comparing two such keys element by
//! element orders them first by the number, then by each text in turn, a
//! shorter text before any text it is a prefix of.
use vstd::prelude::*;

use crate::json::Json;

verus! {

broadcast use vstd::seq_lib::group_to_multiset_ensures, vstd::multiset::group_multiset_axioms;

/// The key part of a text: its character codes, closed by `-1`.
pub open spec fn text_key(s: Seq<char>) -> Seq<i64> {
    Seq::new(s.len(), |i: int| s[i] as u32 as i64).push(-1i64)
}

/// Appends the key part of a text.
pub fn push_text_key(key: &mut Vec<i64>, s: &str)
    ensures
        final(key)@ == old(key)@ + text_key(s@),
{
    let chars = crate::text::chars_of(s);
    let ghost start = key@;
    let mut i: usize = 0;
    while i < chars.len()
        invariant
            i <= chars@.len(),
            chars@ == s@,
            key@ == start + Seq::new(i as nat, |k: int| chars@[k] as u32 as i64),
        decreases chars.len() - i,
    {
        key.push(chars[i] as u32 as i64);
        i += 1;
        assert(key@ =~= start + Seq::new(i as nat, |k: int| chars@[k] as u32 as i64));
    }
    key.push(-1);
    assert(key@ =~= start + text_key(s@));
}

/// Lexicographic order on integer sequences, a prefix first.
pub open spec fn lex_le(a: Seq<i64>, b: Seq<i64>) -> bool
    decreases a.len(),
{
    if a.len() == 0 {
        true
    } else if b.len() == 0 {
        false
    } else if a[0] < b[0] {
        true
    } else if a[0] > b[0] {
        false
    } else {
        lex_le(a.drop_first(), b.drop_first())
    }
}

pub proof fn lemma_lex_total(a: Seq<i64>, b: Seq<i64>)
    ensures
        lex_le(a, b) || lex_le(b, a),
    decreases a.len(),
{
    if a.len() > 0 && b.len() > 0 && a[0] == b[0] {
        lemma_lex_total(a.drop_first(), b.drop_first());
    }
}

pub proof fn lemma_lex_trans(a: Seq<i64>, b: Seq<i64>, c: Seq<i64>)
    requires
        lex_le(a, b),
        lex_le(b, c),
    ensures
        lex_le(a, c),
    decreases a.len(),
{
    if a.len() > 0 && b.len() > 0 && c.len() > 0 && a[0] == b[0] && b[0] == c[0] {
        lemma_lex_trans(a.drop_first(), b.drop_first(), c.drop_first());
    }
}

/// `a <= b` in the key order.
pub fn key_le(a: &Vec<i64>, b: &Vec<i64>) -> (r: bool)
    ensures
        r == lex_le(a@, b@),
{
    let mut i: usize = 0;
    proof {
        assert(a@.skip(0) =~= a@);
        assert(b@.skip(0) =~= b@);
    }
    while i < a.len() && i < b.len()
        invariant
            i <= a@.len(),
            i <= b@.len(),
            a@.take(i as int) == b@.take(i as int),
            lex_le(a@, b@) == lex_le(a@.skip(i as int), b@.skip(i as int)),
        decreases a.len() - i,
    {
        proof {
            assert(a@.skip(i as int).drop_first() =~= a@.skip(i as int + 1));
            assert(b@.skip(i as int).drop_first() =~= b@.skip(i as int + 1));
            assert(a@.skip(i as int)[0] == a@[i as int]);
            assert(b@.skip(i as int)[0] == b@[i as int]);
        }
        if a[i] < b[i] {
            return true;
        }
        if a[i] > b[i] {
            return false;
        }
        proof {
            assert(a@.take(i as int + 1) =~= a@.take(i as int).push(a@[i as int]));
            assert(b@.take(i as int + 1) =~= b@.take(i as int).push(b@[i as int]));
        }
        i += 1;
    }
    i == a.len()
}

pub proof fn lemma_lex_refl(a: Seq<i64>)
    ensures
        lex_le(a, a),
    decreases a.len(),
{
    if a.len() > 0 {
        lemma_lex_refl(a.drop_first());
    }
}

/// Whether a row has this key.
pub open spec fn key_is(key: Seq<i64>) -> spec_fn((Vec<i64>, Json)) -> bool {
    |r: (Vec<i64>, Json)| r.0@ == key
}

/// The rows with this key, in order.
pub open spec fn with_key(rows: Seq<(Vec<i64>, Json)>, key: Seq<i64>) -> Seq<(Vec<i64>, Json)> {
    rows.filter(key_is(key))
}

proof fn lemma_filter_none<A>(s: Seq<A>, pred: spec_fn(A) -> bool)
    requires
        forall|i: int| 0 <= i < s.len() ==> !pred(#[trigger] s[i]),
    ensures
        s.filter(pred) == Seq::<A>::empty(),
    decreases s.len(),
{
    reveal(Seq::filter);
    if s.len() > 0 {
        lemma_filter_none(s.drop_last(), pred);
        assert(!pred(s[s.len() - 1]));
    }
}

proof fn lemma_filter_one<A>(x: A, pred: spec_fn(A) -> bool)
    ensures
        seq![x].filter(pred) == if pred(x) {
            seq![x]
        } else {
            Seq::<A>::empty()
        },
{
    reveal_with_fuel(Seq::filter, 2);
    assert(seq![x].drop_last() =~= Seq::<A>::empty());
}

/// Inserting a row before every row whose key is not below its own puts it
/// first among the rows with its key, and leaves the others in place.
proof fn lemma_insert_keeps_key_order(rows: Seq<(Vec<i64>, Json)>, p: int, row: (Vec<i64>, Json))
    requires
        0 <= p <= rows.len(),
        forall|q: int| 0 <= q < p ==> !lex_le(row.0@, #[trigger] rows[q].0@),
    ensures
        forall|k: Seq<i64>| #[trigger] with_key(rows.insert(p, row), k) == with_key(seq![row], k) + with_key(rows, k),
{
    let front = rows.take(p);
    let back = rows.skip(p);
    assert(rows.insert(p, row) =~= front + seq![row] + back);
    assert(rows =~= front + back);
    assert forall|k: Seq<i64>| #[trigger] with_key(rows.insert(p, row), k) == with_key(seq![row], k) + with_key(rows, k) by {
        let pred = key_is(k);
        Seq::filter_distributes_over_add(front + seq![row], back, pred);
        Seq::filter_distributes_over_add(front, seq![row], pred);
        Seq::filter_distributes_over_add(front, back, pred);
        lemma_filter_one(row, pred);
        if k == row.0@ {
            assert forall|q: int| 0 <= q < front.len() implies !pred(#[trigger] front[q]) by {
                assert(front[q] == rows[q]);
                if rows[q].0@ == k {
                    lemma_lex_refl(k);
                }
            }
            lemma_filter_none(front, pred);
            assert(front.filter(pred) + seq![row].filter(pred) =~= seq![row].filter(pred));
            assert(front.filter(pred) + back.filter(pred) =~= back.filter(pred));
        } else {
            assert(seq![row].filter(pred) =~= Seq::<(Vec<i64>, Json)>::empty());
            assert(front.filter(pred) + seq![row].filter(pred) =~= front.filter(pred));
            assert(seq![row].filter(pred) + (front + back).filter(pred) =~= (front + back).filter(pred));
        }
    }
}

/// Filtering commutes with a map when the two tests agree on each item.
pub proof fn lemma_filter_map<A, B>(s: Seq<A>, f: spec_fn(A) -> B, p: spec_fn(A) -> bool, q: spec_fn(B) -> bool)
    requires
        forall|i: int| 0 <= i < s.len() ==> p(#[trigger] s[i]) == q(f(s[i])),
    ensures
        s.filter(p).map_values(f) == s.map_values(f).filter(q),
    decreases s.len(),
{
    reveal(Seq::filter);
    if s.len() > 0 {
        let front = s.drop_last();
        assert forall|i: int| 0 <= i < front.len() implies p(#[trigger] front[i]) == q(f(front[i])) by {
            assert(front[i] == s[i]);
        }
        lemma_filter_map(front, f, p, q);
        assert(s.map_values(f).drop_last() =~= front.map_values(f));
        assert(s.map_values(f).last() == f(s.last()));
        assert(p(s[s.len() - 1]) == q(f(s[s.len() - 1])));
        if p(s.last()) {
            assert(s.filter(p).map_values(f) =~= front.filter(p).map_values(f).push(f(s.last())));
        } else {
            assert(s.filter(p).map_values(f) =~= front.filter(p).map_values(f));
        }
    }
}

/// The keys of the rows, in order, are ascending.
pub open spec fn sorted_by_key(rows: Seq<(Vec<i64>, Json)>) -> bool {
    forall|i: int, j: int| 0 <= i < j < rows.len() ==> lex_le(#[trigger] rows[i].0@, #[trigger] rows[j].0@)
}

/// Orders the rows by their keys; rows with equal keys keep their order.
pub fn sort_by_key(rows: Vec<(Vec<i64>, Json)>) -> (r: Vec<(Vec<i64>, Json)>)
    ensures
        r@.len() == rows@.len(),
        r@.to_multiset() == rows@.to_multiset(),
        sorted_by_key(r@),
        forall|key: Seq<i64>| #[trigger] with_key(r@, key) == with_key(rows@, key),
{
    let mut rest = rows;
    let mut out: Vec<(Vec<i64>, Json)> = Vec::new();
    while rest.len() > 0
        invariant
            rest@.to_multiset().add(out@.to_multiset()) == rows@.to_multiset(),
            rest@.len() + out@.len() == rows@.len(),
            sorted_by_key(out@),
            rest@ == rows@.take(rest@.len() as int),
            forall|key: Seq<i64>| #[trigger] with_key(out@, key) == with_key(rows@.skip(rest@.len() as int), key),
        decreases rest.len(),
    {
        let ghost before_rest = rest@;
        let ghost before_out = out@;
        let row = rest.pop().unwrap();
        proof {
            assert(before_rest =~= rest@.push(row));
        }
        let mut p: usize = 0;
        while p < out.len() && !key_le(&row.0, &out[p].0)
            invariant
                p <= out@.len(),
                out@ == before_out,
                forall|k: int| 0 <= k < p ==> !lex_le(row.0@, #[trigger] out@[k].0@),
            decreases out.len() - p,
        {
            p += 1;
        }
        proof {
            assert forall|k: int| 0 <= k < p implies lex_le(#[trigger] out@[k].0@, row.0@) by {
                lemma_lex_total(row.0@, out@[k].0@);
            }
            if p < out@.len() {
                assert(lex_le(row.0@, out@[p as int].0@));
            }
        }
        let ghost key = row.0@;
        let ghost inserted = row;
        out.insert(p, row);
        proof {
            assert(out@ =~= before_out.insert(p as int, inserted));
            assert(out@.remove(p as int) =~= before_out);
            assert(out@[p as int] == inserted);
            assert(out@.to_multiset() =~= before_out.to_multiset().insert(inserted)) by {
                assert(out@.remove(p as int).to_multiset() =~= out@.to_multiset().remove(inserted));
                assert(out@.to_multiset().count(inserted) > 0) by {
                    assert(out@.contains(inserted));
                }
            }
            assert forall|i: int, j: int| 0 <= i < j < out@.len() implies lex_le(
                #[trigger] out@[i].0@,
                #[trigger] out@[j].0@,
            ) by {
                if j < p {
                    assert(out@[i] == before_out[i] && out@[j] == before_out[j]);
                } else if j == p {
                    assert(out@[i] == before_out[i]);
                } else if i == p {
                    assert(out@[j] == before_out[j - 1]);
                    if p < before_out.len() {
                        if j - 1 > p {
                            assert(lex_le(before_out[p as int].0@, before_out[j - 1].0@));
                            lemma_lex_trans(key, before_out[p as int].0@, before_out[j - 1].0@);
                        }
                    }
                } else if i < p {
                    assert(out@[i] == before_out[i] && out@[j] == before_out[j - 1]);
                } else {
                    assert(out@[i] == before_out[i - 1] && out@[j] == before_out[j - 1]);
                }
            }
            assert(rest@.to_multiset().add(out@.to_multiset()) =~= rows@.to_multiset());
            let m = before_rest.len() as int;
            assert(rest@ =~= rows@.take(m - 1));
            assert(rows@.skip(m - 1) =~= seq![inserted] + rows@.skip(m));
            lemma_insert_keeps_key_order(before_out, p as int, inserted);
            assert forall|k: Seq<i64>| #[trigger] with_key(out@, k) == with_key(rows@.skip(m - 1), k) by {
                Seq::filter_distributes_over_add(seq![inserted], rows@.skip(m), key_is(k));
                assert(with_key(out@, k) == with_key(before_out.insert(p as int, inserted), k));
            }
        }
    }
    proof {
        assert(rest@.to_multiset() =~= vstd::multiset::Multiset::empty());
        assert(out@.to_multiset() =~= rows@.to_multiset());
        assert(rows@.skip(0) =~= rows@);
    }
    out
}

/// Rearranging a sequence rearranges its image.
pub proof fn lemma_map_multiset<A, B>(s1: Seq<A>, s2: Seq<A>, f: spec_fn(A) -> B)
    requires
        s1.to_multiset() == s2.to_multiset(),
    ensures
        s1.map_values(f).to_multiset() == s2.map_values(f).to_multiset(),
    decreases s1.len(),
{
    if s1.len() == 0 {
        assert(s1.to_multiset().len() == 0);
        assert(s2.to_multiset().len() == s2.len());
        assert(s2.len() == 0);
        assert(s1.map_values(f) =~= s2.map_values(f));
    } else {
        let x = s1.last();
        let rest1 = s1.drop_last();
        assert(s1 =~= rest1.push(x));
        assert(s1.to_multiset().count(x) > 0) by {
            assert(s1.contains(x)) by {
                assert(s1[s1.len() - 1] == x);
            }
        }
        assert(s2.contains(x));
        let j = choose|j: int| 0 <= j < s2.len() && s2[j] == x;
        let rest2 = s2.remove(j);
        assert(rest2.to_multiset() =~= s2.to_multiset().remove(x));
        assert(rest1.to_multiset() =~= s1.to_multiset().remove(x));
        lemma_map_multiset(rest1, rest2, f);
        assert(s1.map_values(f) =~= rest1.map_values(f).push(f(x)));
        assert(s2.map_values(f).remove(j) =~= rest2.map_values(f));
        assert(s2.map_values(f)[j] == f(x));
        assert(s2.map_values(f).to_multiset().count(f(x)) > 0) by {
            assert(s2.map_values(f).contains(f(x)));
        }
        assert(s2.map_values(f).remove(j).to_multiset() =~= s2.map_values(f).to_multiset().remove(f(x)));
        assert(s2.map_values(f).to_multiset() =~= rest2.map_values(f).to_multiset().insert(f(x)));
    }
}

/// The values of keyed rows, in order.
pub fn values_of(pairs: Vec<(Vec<i64>, Json)>) -> (r: Vec<Json>)
    ensures
        r@.len() == pairs@.len(),
        forall|k: int| 0 <= k < r@.len() ==> #[trigger] r@[k] == pairs@[k].1,
{
    let ghost all = pairs@;
    let mut rest = pairs;
    let mut out: Vec<Json> = Vec::new();
    while rest.len() > 0
        invariant
            out@.len() + rest@.len() == all.len(),
            forall|k: int| 0 <= k < out@.len() ==> #[trigger] out@[k] == all[k].1,
            forall|k: int| 0 <= k < rest@.len() ==> #[trigger] rest@[k] == all[k + out@.len()],
        decreases rest.len(),
    {
        let ghost before = rest@;
        let (_, value) = rest.remove(0);
        assert(value == all[out@.len() as int].1);
        out.push(value);
        assert forall|k: int| 0 <= k < rest@.len() implies #[trigger] rest@[k] == all[k + out@.len()] by {
            assert(rest@[k] == before[k + 1]);
        }
    }
    out
}

} // verus!
