//! Sorting window lists and id lists into the crate's canonical orders.

use vstd::prelude::*;
use vstd::relations::{sorted_by, total_ordering};
use vstd::seq_lib::{lemma_multiset_commutative, lemma_sorted_unique};
use crate::window::{window_le, TimeRange};

verus! {

/// Inserting anywhere adds exactly one occurrence to the element multiset.
proof fn lemma_insert_to_multiset<T>(s: Seq<T>, x: T, j: int)
    requires
        0 <= j <= s.len(),
    ensures
        s.insert(j, x).to_multiset() =~= s.to_multiset().insert(x),
{
    broadcast use vstd::seq_lib::group_to_multiset_ensures;

    let front = s.take(j);
    let back = s.skip(j);
    assert(s.insert(j, x) =~= front.push(x) + back);
    assert(s =~= front + back);
    lemma_multiset_commutative(front.push(x), back);
    lemma_multiset_commutative(front, back);
    assert(front.push(x).to_multiset() =~= front.to_multiset().insert(x));
}

/// Inserting at the first position whose element is not below `x` keeps a
/// sequence sorted.
proof fn lemma_insert_sorted<T>(s: Seq<T>, leq: spec_fn(T, T) -> bool, x: T, j: int)
    requires
        sorted_by(s, leq),
        total_ordering(leq),
        0 <= j <= s.len(),
        forall|k: int| 0 <= k < j ==> leq(#[trigger] s[k], x),
        j < s.len() ==> !leq(s[j], x),
    ensures
        sorted_by(s.insert(j, x), leq),
{
    let t = s.insert(j, x);
    assert forall|k1: int, k2: int| 0 <= k1 < k2 < t.len() implies #[trigger] leq(t[k1], t[k2]) by {
        if k1 < j && k2 == j {
            assert(t[k1] == s[k1] && t[k2] == x);
        } else if k1 == j && k2 > j {
            assert(t[k1] == x && t[k2] == s[k2 - 1]);
            assert(!leq(s[j], x));
            assert(leq(x, s[j]));
            assert(j < k2 - 1 ==> leq(s[j], s[k2 - 1]));
        } else if k1 < j && k2 > j {
            assert(t[k1] == s[k1] && t[k2] == s[k2 - 1]);
        } else if k1 > j {
            assert(t[k1] == s[k1 - 1] && t[k2] == s[k2 - 1]);
        }
    }
}

/// Returns the windows of `ws` in the crate's canonical order: the unique
/// permutation sorted by [`TimeRange::le_spec`].
pub fn sort_windows(ws: &Vec<TimeRange>) -> (r: Vec<TimeRange>)
    ensures
        r@ == ws@.sort_by(window_le()),
        sorted_by(r@, window_le()),
        r@.to_multiset() == ws@.to_multiset(),
        r@.len() == ws@.len(),
{
    proof {
        crate::window::lemma_window_le_total();
    }
    let mut out: Vec<TimeRange> = Vec::new();
    proof {
        broadcast use vstd::seq_lib::group_to_multiset_ensures;

        assert(out@.to_multiset() =~= ws@.take(0).to_multiset());
    }
    for i in 0..ws.len()
        invariant
            sorted_by(out@, window_le()),
            out@.to_multiset() =~= ws@.take(i as int).to_multiset(),
            out@.len() == i,
            total_ordering(window_le()),
    {
        let x = ws[i];
        let mut j: usize = 0;
        while j < out.len() && out[j].le(&x)
            invariant
                0 <= j <= out@.len(),
                forall|k: int| 0 <= k < j ==> window_le()(#[trigger] out@[k], x),
            decreases out@.len() - j,
        {
            j = j + 1;
        }
        proof {
            broadcast use vstd::seq_lib::group_to_multiset_ensures;

            lemma_insert_sorted(out@, window_le(), x, j as int);
            lemma_insert_to_multiset(out@, x, j as int);
            assert(ws@.take(i + 1) =~= ws@.take(i as int).push(ws@[i as int]));
        }
        out.insert(j, x);
    }
    proof {
        assert(ws@.take(ws@.len() as int) =~= ws@);
        ws@.lemma_sort_by_ensures(window_le());
        lemma_sorted_unique(out@, ws@.sort_by(window_le()), window_le());
        broadcast use vstd::seq_lib::group_to_multiset_ensures;
    }
    out
}

/// Ascending order on station ids.
pub open spec fn id_le() -> spec_fn(u32, u32) -> bool {
    |a: u32, b: u32| a <= b
}

pub proof fn lemma_id_le_total()
    ensures
        total_ordering(id_le()),
{
}

/// Returns the ids of `ids` in ascending order: the unique sorted
/// permutation.  The engine walks stations in this order, so its output
/// is deterministic whatever order the input declared them in.
pub fn sort_ids(ids: &Vec<u32>) -> (r: Vec<u32>)
    ensures
        r@ == ids@.sort_by(id_le()),
        sorted_by(r@, id_le()),
        r@.to_multiset() == ids@.to_multiset(),
        r@.len() == ids@.len(),
{
    proof {
        lemma_id_le_total();
    }
    let mut out: Vec<u32> = Vec::new();
    proof {
        broadcast use vstd::seq_lib::group_to_multiset_ensures;

        assert(out@.to_multiset() =~= ids@.take(0).to_multiset());
    }
    for i in 0..ids.len()
        invariant
            sorted_by(out@, id_le()),
            out@.to_multiset() =~= ids@.take(i as int).to_multiset(),
            out@.len() == i,
            total_ordering(id_le()),
    {
        let x = ids[i];
        let mut j: usize = 0;
        while j < out.len() && out[j] <= x
            invariant
                0 <= j <= out@.len(),
                forall|k: int| 0 <= k < j ==> id_le()(#[trigger] out@[k], x),
            decreases out@.len() - j,
        {
            j = j + 1;
        }
        proof {
            broadcast use vstd::seq_lib::group_to_multiset_ensures;

            lemma_insert_sorted(out@, id_le(), x, j as int);
            lemma_insert_to_multiset(out@, x, j as int);
            assert(ids@.take(i + 1) =~= ids@.take(i as int).push(ids@[i as int]));
        }
        out.insert(j, x);
    }
    proof {
        assert(ids@.take(ids@.len() as int) =~= ids@);
        ids@.lemma_sort_by_ensures(id_le());
        lemma_sorted_unique(out@, ids@.sort_by(id_le()), id_le());
        broadcast use vstd::seq_lib::group_to_multiset_ensures;
    }
    out
}

} // verus!
