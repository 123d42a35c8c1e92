//! Sorting per-day summaries chronologically.
//!
//! The sort is pinned to the spec function `insort`, a stable insertion
//! sort: equal days keep their input order, so the whole pipeline stays
//! a function of its input.

use vstd::prelude::*;
use vstd::seq_lib::lemma_multiset_commutative;
use crate::aggregate::DaySummary;

verus! {

/// Non-decreasing by calendar day.
pub open spec fn sorted_by_day(s: Seq<DaySummary>) -> bool {
    forall|i: int, j: int|
        0 <= i < j < s.len() ==> (#[trigger] s[i]).day.key() <= (#[trigger] s[j]).day.key()
}

/// `x` placed after every element that does not sort strictly after it.
pub open spec fn insert_sorted(x: DaySummary, s: Seq<DaySummary>) -> Seq<DaySummary>
    decreases s.len(),
{
    if s.len() == 0 {
        seq![x]
    } else if x.day.key() < s[0].day.key() {
        seq![x] + s
    } else {
        seq![s[0]] + insert_sorted(x, s.skip(1))
    }
}

/// Stable insertion sort by day.
pub open spec fn insort(s: Seq<DaySummary>) -> Seq<DaySummary>
    decreases s.len(),
{
    if s.len() == 0 {
        Seq::empty()
    } else {
        insert_sorted(s.last(), insort(s.drop_last()))
    }
}

pub proof fn lemma_insert_sorted_props(x: DaySummary, s: Seq<DaySummary>)
    ensures
        insert_sorted(x, s).len() == s.len() + 1,
        insert_sorted(x, s).to_multiset() == s.to_multiset().insert(x),
        sorted_by_day(s) ==> sorted_by_day(insert_sorted(x, s)),
        forall|i: int|
            0 <= i < insert_sorted(x, s).len() ==> (#[trigger] insert_sorted(x, s)[i] == x
                || s.contains(insert_sorted(x, s)[i])),
    decreases s.len(),
{
    broadcast use vstd::seq_lib::group_to_multiset_ensures;
    broadcast use vstd::multiset::group_multiset_axioms;

    let out = insert_sorted(x, s);
    let e = Seq::<DaySummary>::empty();
    if s.len() == 0 {
        assert(s =~= e);
        assert(out =~= e.push(x));
        assert(out.to_multiset() =~= s.to_multiset().insert(x));
        assert(out[0] == x);
    } else if x.day.key() < s[0].day.key() {
        assert(out == seq![x] + s);
        lemma_multiset_commutative(seq![x], s);
        assert(seq![x] =~= e.push(x));
        vstd::multiset::lemma_multiset_empty_len(e.to_multiset());
        assert(out.to_multiset() =~= s.to_multiset().insert(x));
        assert forall|i: int| 0 <= i < out.len() implies (#[trigger] out[i] == x || s.contains(
            out[i],
        )) by {
            if i > 0 {
                assert(out[i] == s[i - 1]);
            }
        }
        if sorted_by_day(s) {
            assert forall|i: int, j: int|
                0 <= i < j < out.len() implies (#[trigger] out[i]).day.key() <= (
            #[trigger] out[j]).day.key() by {
                if i > 0 {
                    assert(out[i] == s[i - 1] && out[j] == s[j - 1]);
                }
            }
        }
    } else {
        let rest = insert_sorted(x, s.skip(1));
        assert(out == seq![s[0]] + rest);
        lemma_insert_sorted_props(x, s.skip(1));
        lemma_multiset_commutative(seq![s[0]], rest);
        lemma_multiset_commutative(seq![s[0]], s.skip(1));
        assert(s =~= seq![s[0]] + s.skip(1));
        assert(out.to_multiset() =~= s.to_multiset().insert(x));
        assert forall|i: int| 0 <= i < out.len() implies (#[trigger] out[i] == x || s.contains(
            out[i],
        )) by {
            if i == 0 {
                assert(s[0] == out[0]);
                assert(s.contains(s[0]));
            } else {
                assert(out[i] == rest[i - 1]);
                if rest[i - 1] != x {
                    let k = choose|k: int| 0 <= k < s.skip(1).len() && s.skip(1)[k] == rest[i - 1];
                    assert(s[k + 1] == rest[i - 1]);
                    assert(s.contains(s[k + 1]));
                }
            }
        }
        if sorted_by_day(s) {
            assert forall|i: int, j: int|
                0 <= i < j < s.skip(1).len() implies (#[trigger] s.skip(1)[i]).day.key() <= (
            #[trigger] s.skip(1)[j]).day.key() by {
                assert(s.skip(1)[i] == s[i + 1] && s.skip(1)[j] == s[j + 1]);
            }
            assert forall|i: int, j: int|
                0 <= i < j < out.len() implies (#[trigger] out[i]).day.key() <= (
            #[trigger] out[j]).day.key() by {
                if i == 0 {
                    if out[j] == x {
                    } else {
                        let ej = out[j];
                        assert(s.contains(ej));
                        let k = choose|k: int| 0 <= k < s.len() && s[k] == ej;
                        if k > 0 {
                            assert(s[0].day.key() <= s[k].day.key());
                        }
                    }
                } else {
                    assert(out[i] == rest[i - 1] && out[j] == rest[j - 1]);
                }
            }
        }
    }
}

/// `insort` sorts: same length, same multiset of summaries, days in
/// non-decreasing order.
pub proof fn lemma_insort_sorted(s: Seq<DaySummary>)
    ensures
        insort(s).len() == s.len(),
        insort(s).to_multiset() == s.to_multiset(),
        sorted_by_day(insort(s)),
    decreases s.len(),
{
    broadcast use vstd::seq_lib::group_to_multiset_ensures;

    if s.len() > 0 {
        lemma_insort_sorted(s.drop_last());
        lemma_insert_sorted_props(s.last(), insort(s.drop_last()));
        assert(s.drop_last().push(s.last()) =~= s);
        assert(insort(s).to_multiset() =~= s.to_multiset());
    }
}

/// Inserting at the first strictly-later slot is `insert_sorted`.
pub proof fn lemma_insert_sorted_at(x: DaySummary, s: Seq<DaySummary>, j: int)
    requires
        0 <= j <= s.len(),
        forall|k: int| 0 <= k < j ==> (#[trigger] s[k]).day.key() <= x.day.key(),
        j < s.len() ==> x.day.key() < s[j].day.key(),
    ensures
        insert_sorted(x, s) == s.insert(j, x),
    decreases j,
{
    if j == 0 {
        if s.len() == 0 {
            assert(insert_sorted(x, s) =~= s.insert(0, x));
        } else {
            assert(seq![x] + s =~= s.insert(0, x));
        }
    } else {
        assert(s[0].day.key() <= x.day.key());
        assert forall|k: int| 0 <= k < j - 1 implies (#[trigger] s.skip(1)[k]).day.key()
            <= x.day.key() by {
            assert(s.skip(1)[k] == s[k + 1]);
        }
        if j - 1 < s.skip(1).len() {
            assert(s.skip(1)[j - 1] == s[j]);
        }
        lemma_insert_sorted_at(x, s.skip(1), j - 1);
        assert(seq![s[0]] + s.skip(1).insert(j - 1, x) =~= s.insert(j, x));
    }
}

/// Sorts the summaries by day, ascending and stable: the result is
/// exactly `insort` of the input.
pub fn sort_by_day(input: Vec<DaySummary>) -> (r: Vec<DaySummary>)
    ensures
        r@ == insort(input@),
        r@.to_multiset() == input@.to_multiset(),
        sorted_by_day(r@),
        r@.len() == input@.len(),
{
    let ghost orig = input@;
    let mut rest = input;
    let mut out: Vec<DaySummary> = Vec::new();
    let mut i: usize = 0;
    proof {
        assert(orig.take(0) =~= Seq::<DaySummary>::empty());
        assert(rest@ =~= orig.skip(0));
    }
    while rest.len() > 0
        invariant
            i + rest@.len() == orig.len(),
            0 <= i <= orig.len(),
            rest@ == orig.skip(i as int),
            out@ == insort(orig.take(i as int)),
            out@.len() == i,
        decreases rest@.len(),
    {
        let x = rest.remove(0);
        proof {
            assert(x == orig[i as int]);
            assert(orig.skip(i as int).remove(0) =~= orig.skip(i as int + 1));
        }
        let mut j: usize = 0;
        while j < out.len() && out[j].day.on_or_before(&x.day)
            invariant
                0 <= j <= out@.len(),
                forall|k: int| 0 <= k < j ==> (#[trigger] out@[k]).day.key() <= x.day.key(),
            decreases out@.len() - j,
        {
            j = j + 1;
        }
        proof {
            lemma_insert_sorted_at(x, out@, j as int);
            assert(orig.take(i as int + 1).drop_last() =~= orig.take(i as int));
            assert(orig.take(i as int + 1).last() == orig[i as int]);
            lemma_insert_sorted_props(x, out@);
        }
        out.insert(j, x);
        i = out.len();
    }
    proof {
        assert(orig.take(orig.len() as int) =~= orig);
        lemma_insort_sorted(orig);
    }
    out
}

} // verus!
