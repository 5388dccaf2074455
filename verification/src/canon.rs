//! Canonicalization: the stable sort by id that encoding applies to a
//! deck's entry lists before writing deltas.
use vstd::prelude::*;
use crate::format::sorted_by_id;
use crate::format::counts_positive;

verus! {

/// Insert `x` behind every element whose id does not exceed `x`'s:
/// insertion keeps earlier entries with the same id in front, so the
/// sort built on it is stable.
pub open spec fn insert_pair(s: Seq<(u32, u32)>, x: (u32, u32)) -> Seq<(u32, u32)>
    decreases s.len(),
{
    if s.len() == 0 {
        seq![x]
    } else if s.last().0 <= x.0 {
        s.push(x)
    } else {
        insert_pair(s.drop_last(), x).push(s.last())
    }
}

/// Stable insertion sort by id.
pub open spec fn sort_pairs_spec(s: Seq<(u32, u32)>) -> Seq<(u32, u32)>
    decreases s.len(),
{
    if s.len() == 0 {
        Seq::empty()
    } else {
        insert_pair(sort_pairs_spec(s.drop_last()), s.last())
    }
}

/// Inserting splices `x` right in front of the longest tail of
/// elements with larger ids.
proof fn lemma_insert_pair_splice(s: Seq<(u32, u32)>, x: (u32, u32), p: int)
    requires
        0 <= p <= s.len(),
        forall|k: int| p <= k < s.len() ==> s[k].0 > x.0,
        p > 0 ==> s[p - 1].0 <= x.0,
    ensures
        insert_pair(s, x) == s.take(p) + seq![x] + s.skip(p),
    decreases s.len(),
{
    if p == s.len() {
        if s.len() == 0 {
            assert(seq![x] =~= s.take(p) + seq![x] + s.skip(p));
        } else {
            assert(s.push(x) =~= s.take(p) + seq![x] + s.skip(p));
        }
    } else {
        lemma_insert_pair_splice(s.drop_last(), x, p);
        assert(insert_pair(s.drop_last(), x).push(s.last()) =~= s.take(p) + seq![x] + s.skip(p));
    }
}

/// Inserting into a sorted run keeps it sorted.
pub proof fn lemma_insert_pair_sorted(s: Seq<(u32, u32)>, x: (u32, u32))
    requires
        sorted_by_id(s),
    ensures
        sorted_by_id(insert_pair(s, x)),
        insert_pair(s, x).len() == s.len() + 1,
    decreases s.len(),
{
    if s.len() != 0 && s.last().0 > x.0 {
        assert(sorted_by_id(s.drop_last()));
        lemma_insert_pair_sorted(s.drop_last(), x);
        let t = insert_pair(s.drop_last(), x);
        assert forall|i: int, j: int| 0 <= i < j < t.push(s.last()).len() implies t.push(
            s.last(),
        )[i].0 <= t.push(s.last())[j].0 by {
            if j < t.len() {
            } else {
                lemma_insert_pair_ids(s.drop_last(), x, i);
            }
        }
    }
}

/// Every id in an inserted run is one of the old ids or the new one.
proof fn lemma_insert_pair_ids(s: Seq<(u32, u32)>, x: (u32, u32), i: int)
    requires
        0 <= i < insert_pair(s, x).len(),
    ensures
        insert_pair(s, x)[i] == x || exists|k: int|
            0 <= k < s.len() && s[k] == insert_pair(s, x)[i],
    decreases s.len(),
{
    if s.len() == 0 {
    } else if s.last().0 <= x.0 {
        if i < s.len() {
            assert(s[i] == insert_pair(s, x)[i]);
        }
    } else {
        let t = insert_pair(s.drop_last(), x);
        if i < t.len() {
            lemma_insert_pair_ids(s.drop_last(), x, i);
            if t[i] != x {
                let k = choose|k: int| 0 <= k < s.drop_last().len() && s.drop_last()[k] == t[i];
                assert(s[k] == t[i]);
            }
        } else {
            assert(insert_pair(s, x)[i] == s.last());
            assert(s[s.len() - 1] == s.last());
        }
    }
}

/// Sorting sorts: the result ascends by id and keeps the length.
pub proof fn lemma_sort_pairs_sorted(s: Seq<(u32, u32)>)
    ensures
        sorted_by_id(sort_pairs_spec(s)),
        sort_pairs_spec(s).len() == s.len(),
    decreases s.len(),
{
    if s.len() != 0 {
        lemma_sort_pairs_sorted(s.drop_last());
        lemma_insert_pair_sorted(sort_pairs_spec(s.drop_last()), s.last());
    }
}

/// Sorting keeps every count that was positive positive: the result
/// holds exactly the old entries and the inserted one.
pub proof fn lemma_sort_pairs_counts(s: Seq<(u32, u32)>)
    requires
        counts_positive(s),
    ensures
        counts_positive(sort_pairs_spec(s)),
    decreases s.len(),
{
    if s.len() != 0 {
        assert(counts_positive(s.drop_last()));
        lemma_sort_pairs_counts(s.drop_last());
        let t = insert_pair(sort_pairs_spec(s.drop_last()), s.last());
        assert forall|i: int| 0 <= i < t.len() implies #[trigger] t[i].1 >= 1 by {
            lemma_insert_pair_ids(sort_pairs_spec(s.drop_last()), s.last(), i);
        }
    }
}

/// Inserting adds exactly the new entry to the run's contents.
proof fn lemma_insert_pair_multiset(s: Seq<(u32, u32)>, x: (u32, u32))
    ensures
        insert_pair(s, x).to_multiset() == s.to_multiset().insert(x),
    decreases s.len(),
{
    broadcast use vstd::seq_lib::group_to_multiset_ensures;

    if s.len() == 0 {
        assert(seq![x] =~= Seq::<(u32, u32)>::empty().push(x));
        assert(s =~= Seq::<(u32, u32)>::empty());
    } else if s.last().0 <= x.0 {
    } else {
        lemma_insert_pair_multiset(s.drop_last(), x);
        assert(s.drop_last().push(s.last()) =~= s);
        assert(s.drop_last().to_multiset().insert(x).insert(s.last()) =~= s.drop_last()
            .to_multiset().insert(s.last()).insert(x));
    }
}

/// Sorting reorders a run and nothing more: the entries, counted with
/// multiplicity, are exactly those it started with.
pub proof fn lemma_sort_pairs_multiset(s: Seq<(u32, u32)>)
    ensures
        sort_pairs_spec(s).to_multiset() == s.to_multiset(),
    decreases s.len(),
{
    broadcast use vstd::seq_lib::group_to_multiset_ensures;

    if s.len() != 0 {
        lemma_sort_pairs_multiset(s.drop_last());
        lemma_insert_pair_multiset(sort_pairs_spec(s.drop_last()), s.last());
        assert(s.drop_last().push(s.last()) =~= s);
    }
}

/// A run that is already sorted is its own sorted form: encoding a
/// deck that came out of decoding reorders nothing.
pub proof fn lemma_sort_pairs_of_sorted(s: Seq<(u32, u32)>)
    requires
        sorted_by_id(s),
    ensures
        sort_pairs_spec(s) == s,
    decreases s.len(),
{
    if s.len() != 0 {
        assert(sorted_by_id(s.drop_last()));
        lemma_sort_pairs_of_sorted(s.drop_last());
        if s.len() == 1 {
            assert(insert_pair(s.drop_last(), s.last()) =~= s);
        } else {
            assert(s.drop_last().last().0 <= s.last().0);
            assert(s.drop_last().push(s.last()) =~= s);
        }
    }
}

/// Sort a pair list ascending by id, stably, in place.
pub fn sort_pairs(v: &mut Vec<(u32, u32)>)
    ensures
        final (v)@ == sort_pairs_spec(old(v)@),
{
    let mut out: Vec<(u32, u32)> = Vec::new();
    let mut i: usize = 0;
    proof {
        assert(old(v)@.take(0) =~= Seq::<(u32, u32)>::empty());
    }
    while i < v.len()
        invariant
            i <= v@.len(),
            v@ == old(v)@,
            out@ == sort_pairs_spec(v@.take(i as int)),
        decreases v@.len() - i,
    {
        let x = v[i];
        insert_sorted(&mut out, x);
        i = i + 1;
        proof {
            assert(v@.take(i as int).drop_last() =~= v@.take(i as int - 1));
            assert(v@.take(i as int).last() == x);
        }
    }
    proof {
        assert(v@.take(v@.len() as int) =~= v@);
    }
    *v = out;
}

/// Insert one pair into a run, behind every element whose id does not
/// exceed its own.
fn insert_sorted(out: &mut Vec<(u32, u32)>, x: (u32, u32))
    ensures
        final (out)@ == insert_pair(old(out)@, x),
{
    let mut p: usize = out.len();
    while p > 0 && out[p - 1].0 > x.0
        invariant
            p <= out@.len(),
            out@ == old(out)@,
            forall|k: int| p <= k < out@.len() ==> out@[k].0 > x.0,
        decreases p,
    {
        p = p - 1;
    }
    proof {
        lemma_insert_pair_splice(out@, x, p as int);
        assert(out@.insert(p as int, x) =~= out@.take(p as int) + seq![x] + out@.skip(p as int));
    }
    out.insert(p, x);
}

} // verus!
