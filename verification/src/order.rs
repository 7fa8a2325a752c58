//! Ordering for the query layer: records sorted by timestamp with the
//! store id as tie-break, and frequency pairs ranked by count with
//! first-seen position as tie-break. Each sort is a stable insertion
//! sort, pinned down as a spec-level function of its input.

use vstd::prelude::*;

use crate::models::History;

verus! {

/// Record order: by timestamp ascending, ties by id ascending.
pub open spec fn le_record(a: History, b: History) -> bool {
    a.timestamp < b.timestamp || (a.timestamp == b.timestamp && a.id <= b.id)
}

/// `x` placed from the right into an already ordered sequence.
pub open spec fn place_record(s: Seq<History>, x: History) -> Seq<History>
    decreases s.len(),
{
    if s.len() == 0 {
        seq![x]
    } else if le_record(s.last(), x) {
        s.push(x)
    } else {
        place_record(s.drop_last(), x).push(s.last())
    }
}

/// The records sorted by `le_record`, in one canonical way.
pub open spec fn sorted_records_spec(s: Seq<History>) -> Seq<History>
    decreases s.len(),
{
    if s.len() == 0 {
        Seq::empty()
    } else {
        place_record(sorted_records_spec(s.drop_last()), s.last())
    }
}

/// Ordered from first to last by `le_record`.
pub open spec fn record_sorted(s: Seq<History>) -> bool {
    forall|i: int, j: int| 0 <= i < j < s.len() ==> le_record(s[i], s[j])
}

/// Placing keeps order, adds the new element to the contents, and keeps
/// everything else.
pub proof fn lemma_place_record(s: Seq<History>, x: History)
    requires
        record_sorted(s),
    ensures
        record_sorted(place_record(s, x)),
        place_record(s, x).to_multiset() == s.to_multiset().insert(x),
        place_record(s, x).len() == s.len() + 1,
        forall|k: int|
            0 <= k < place_record(s, x).len() ==> place_record(s, x)[k] == x || s.contains(
                #[trigger] place_record(s, x)[k],
            ),
    decreases s.len(),
{
    broadcast use vstd::seq_lib::group_seq_properties;

    let r = place_record(s, x);
    if s.len() == 0 {
        assert(seq![x] =~= Seq::<History>::empty().push(x));
        assert(r.to_multiset() =~= s.to_multiset().insert(x));
    } else if le_record(s.last(), x) {
        assert(forall|i: int| 0 <= i < s.len() ==> le_record(s[i], s.last()) || s[i] == s.last());
    } else {
        let t = s.drop_last();
        assert(record_sorted(t));
        lemma_place_record(t, x);
        let p = place_record(t, x);
        assert(r == p.push(s.last()));
        assert forall|k: int| 0 <= k < p.len() implies le_record(p[k], s.last()) by {
            if p[k] == x {
            } else {
                let m = choose|m: int| 0 <= m < t.len() && t[m] == p[k];
                assert(le_record(s[m], s.last()));
            }
        }
        assert(record_sorted(r));
        assert(s =~= t.push(s.last()));
        assert(s.to_multiset() =~= t.to_multiset().insert(s.last()));
        assert(r.to_multiset() =~= p.to_multiset().insert(s.last()));
        assert(r.to_multiset() =~= s.to_multiset().insert(x));
        assert forall|k: int| 0 <= k < r.len() && r[k] != x implies s.contains(r[k]) by {
            if k < p.len() {
                let m = choose|m: int| 0 <= m < t.len() && t[m] == p[k];
                assert(s[m] == r[k]);
            } else {
                assert(r[k] == s.last());
            }
        }
    }
}

/// The canonical sort is ordered and is a permutation of its input.
pub proof fn lemma_sorted_records_spec(s: Seq<History>)
    ensures
        record_sorted(sorted_records_spec(s)),
        sorted_records_spec(s).to_multiset() == s.to_multiset(),
        sorted_records_spec(s).len() == s.len(),
        forall|k: int|
            0 <= k < s.len() ==> s.contains(#[trigger] sorted_records_spec(s)[k]),
    decreases s.len(),
{
    broadcast use vstd::seq_lib::group_seq_properties;

    if s.len() > 0 {
        let t = s.drop_last();
        lemma_sorted_records_spec(t);
        lemma_place_record(sorted_records_spec(t), s.last());
        assert(s =~= t.push(s.last()));
        assert(s.to_multiset() =~= t.to_multiset().insert(s.last()));
        assert forall|k: int|
            0 <= k < s.len() implies s.contains(#[trigger] sorted_records_spec(s)[k]) by {
            let r = sorted_records_spec(s);
            if r[k] == s.last() {
                assert(s[s.len() - 1] == s.last());
            } else {
                assert(sorted_records_spec(t).contains(r[k]));
                let m = choose|m: int|
                    0 <= m < sorted_records_spec(t).len() && sorted_records_spec(t)[m] == r[k];
                assert(t.contains(r[k]));
                let m2 = choose|m2: int| 0 <= m2 < t.len() && t[m2] == r[k];
                assert(s[m2] == r[k]);
            }
        }
    }
}

/// True when `x` goes after `a` in record order.
fn le_record_exec(a: &History, b: &History) -> (r: bool)
    ensures
        r == le_record(*a, *b),
{
    a.timestamp < b.timestamp || (a.timestamp == b.timestamp && a.id <= b.id)
}

/// Where placing from the right lands: inserting at `idx` is the same as
/// `place_record` when everything at or after `idx` goes strictly after
/// `x` and the element before `idx`, if any, does not.
proof fn lemma_place_record_at(s: Seq<History>, x: History, idx: int)
    requires
        0 <= idx <= s.len(),
        forall|k: int| idx <= k < s.len() ==> !le_record(#[trigger] s[k], x),
        idx > 0 ==> le_record(s[idx - 1], x),
    ensures
        place_record(s, x) == s.insert(idx, x),
    decreases s.len(),
{
    if s.len() == 0 {
        assert(place_record(s, x) =~= s.insert(0, x));
    } else if idx == s.len() {
        assert(place_record(s, x) =~= s.insert(idx, x));
    } else {
        assert(!le_record(s.last(), x));
        lemma_place_record_at(s.drop_last(), x, idx);
        assert(place_record(s.drop_last(), x).push(s.last()) =~= s.insert(idx, x));
    }
}

/// Places one record into an ordered vector.
fn place_record_exec(v: &mut Vec<History>, x: History)
    ensures
        final(v)@ == place_record(old(v)@, x),
{
    let mut idx: usize = v.len();
    while idx > 0 && !le_record_exec(&v[idx - 1], &x)
        invariant
            idx <= v.len(),
            forall|k: int| idx <= k < v@.len() ==> !le_record(#[trigger] v@[k], x),
        decreases idx,
    {
        idx = idx - 1;
    }
    proof {
        lemma_place_record_at(v@, x, idx as int);
    }
    v.insert(idx, x);
}

/// The records of `v`, sorted by timestamp with id as tie-break.
pub fn sorted_records(v: &Vec<History>) -> (r: Vec<History>)
    ensures
        r@ == sorted_records_spec(v@),
{
    let mut r: Vec<History> = Vec::new();
    let mut i: usize = 0;
    while i < v.len()
        invariant
            i <= v.len(),
            r@ == sorted_records_spec(v@.take(i as int)),
        decreases v.len() - i,
    {
        proof {
            assert(v@.take(i + 1).drop_last() =~= v@.take(i as int));
            assert(v@.take(i + 1).last() == v@[i as int]);
        }
        place_record_exec(&mut r, v[i].clone());
        i = i + 1;
    }
    assert(v@.take(v@.len() as int) =~= v@);
    r
}

/// Ranking order on `(count, first-seen position)` pairs: by count
/// descending, ties by position ascending.
pub open spec fn le_rank(a: (usize, usize), b: (usize, usize)) -> bool {
    a.0 > b.0 || (a.0 == b.0 && a.1 <= b.1)
}

/// `x` placed from the right into an already ranked sequence.
pub open spec fn place_rank(s: Seq<(usize, usize)>, x: (usize, usize)) -> Seq<(usize, usize)>
    decreases s.len(),
{
    if s.len() == 0 {
        seq![x]
    } else if le_rank(s.last(), x) {
        s.push(x)
    } else {
        place_rank(s.drop_last(), x).push(s.last())
    }
}

/// The pairs ranked by `le_rank`, in one canonical way.
pub open spec fn ranked_spec(s: Seq<(usize, usize)>) -> Seq<(usize, usize)>
    decreases s.len(),
{
    if s.len() == 0 {
        Seq::empty()
    } else {
        place_rank(ranked_spec(s.drop_last()), s.last())
    }
}

/// Ordered from first to last by `le_rank`.
pub open spec fn rank_sorted(s: Seq<(usize, usize)>) -> bool {
    forall|i: int, j: int| 0 <= i < j < s.len() ==> le_rank(s[i], s[j])
}

/// Placing keeps ranking order and the contents.
pub proof fn lemma_place_rank(s: Seq<(usize, usize)>, x: (usize, usize))
    requires
        rank_sorted(s),
    ensures
        rank_sorted(place_rank(s, x)),
        place_rank(s, x).len() == s.len() + 1,
        forall|k: int|
            0 <= k < place_rank(s, x).len() ==> place_rank(s, x)[k] == x || s.contains(
                #[trigger] place_rank(s, x)[k],
            ),
    decreases s.len(),
{
    broadcast use vstd::seq_lib::group_seq_properties;

    let r = place_rank(s, x);
    if s.len() == 0 {
    } else if le_rank(s.last(), x) {
        assert(forall|i: int| 0 <= i < s.len() ==> le_rank(s[i], s.last()) || s[i] == s.last());
    } else {
        let t = s.drop_last();
        lemma_place_rank(t, x);
        let p = place_rank(t, x);
        assert(r == p.push(s.last()));
        assert forall|k: int| 0 <= k < p.len() implies le_rank(p[k], s.last()) by {
            if p[k] == x {
            } else {
                let m = choose|m: int| 0 <= m < t.len() && t[m] == p[k];
                assert(le_rank(s[m], s.last()));
            }
        }
        assert(rank_sorted(r));
        assert forall|k: int| 0 <= k < r.len() && r[k] != x implies s.contains(r[k]) by {
            if k < p.len() {
                let m = choose|m: int| 0 <= m < t.len() && t[m] == p[k];
                assert(s[m] == r[k]);
            } else {
                assert(r[k] == s.last());
            }
        }
    }
}

/// The canonical ranking is ordered and draws every pair from its input.
pub proof fn lemma_ranked_spec(s: Seq<(usize, usize)>)
    ensures
        rank_sorted(ranked_spec(s)),
        ranked_spec(s).len() == s.len(),
        forall|k: int| 0 <= k < s.len() ==> s.contains(#[trigger] ranked_spec(s)[k]),
    decreases s.len(),
{
    broadcast use vstd::seq_lib::group_seq_properties;

    if s.len() > 0 {
        let t = s.drop_last();
        lemma_ranked_spec(t);
        lemma_place_rank(ranked_spec(t), s.last());
        assert forall|k: int| 0 <= k < s.len() implies s.contains(#[trigger] ranked_spec(s)[k]) by {
            let r = ranked_spec(s);
            if r[k] == s.last() {
                assert(s[s.len() - 1] == s.last());
            } else {
                assert(ranked_spec(t).contains(r[k]));
                assert(t.contains(r[k]));
                let m2 = choose|m2: int| 0 <= m2 < t.len() && t[m2] == r[k];
                assert(s[m2] == r[k]);
            }
        }
    }
}

/// True when `x` ranks at or after `a`.
fn le_rank_exec(a: &(usize, usize), b: &(usize, usize)) -> (r: bool)
    ensures
        r == le_rank(*a, *b),
{
    a.0 > b.0 || (a.0 == b.0 && a.1 <= b.1)
}

proof fn lemma_place_rank_at(s: Seq<(usize, usize)>, x: (usize, usize), idx: int)
    requires
        0 <= idx <= s.len(),
        forall|k: int| idx <= k < s.len() ==> !le_rank(#[trigger] s[k], x),
        idx > 0 ==> le_rank(s[idx - 1], x),
    ensures
        place_rank(s, x) == s.insert(idx, x),
    decreases s.len(),
{
    if s.len() == 0 {
        assert(place_rank(s, x) =~= s.insert(0, x));
    } else if idx == s.len() {
        assert(place_rank(s, x) =~= s.insert(idx, x));
    } else {
        assert(!le_rank(s.last(), x));
        lemma_place_rank_at(s.drop_last(), x, idx);
        assert(place_rank(s.drop_last(), x).push(s.last()) =~= s.insert(idx, x));
    }
}

/// Places one pair into a ranked vector.
fn place_rank_exec(v: &mut Vec<(usize, usize)>, x: (usize, usize))
    ensures
        final(v)@ == place_rank(old(v)@, x),
{
    let mut idx: usize = v.len();
    while idx > 0 && !le_rank_exec(&v[idx - 1], &x)
        invariant
            idx <= v.len(),
            forall|k: int| idx <= k < v@.len() ==> !le_rank(#[trigger] v@[k], x),
        decreases idx,
    {
        idx = idx - 1;
    }
    proof {
        lemma_place_rank_at(v@, x, idx as int);
    }
    v.insert(idx, x);
}

/// The pairs of `v` ranked by count descending, position ascending.
pub fn ranked_pairs(v: &Vec<(usize, usize)>) -> (r: Vec<(usize, usize)>)
    ensures
        r@ == ranked_spec(v@),
{
    let mut r: Vec<(usize, usize)> = Vec::new();
    let mut i: usize = 0;
    while i < v.len()
        invariant
            i <= v.len(),
            r@ == ranked_spec(v@.take(i as int)),
        decreases v.len() - i,
    {
        proof {
            assert(v@.take(i + 1).drop_last() =~= v@.take(i as int));
            assert(v@.take(i + 1).last() == v@[i as int]);
        }
        place_rank_exec(&mut r, v[i]);
        i = i + 1;
    }
    assert(v@.take(v@.len() as int) =~= v@);
    r
}

} // verus!
