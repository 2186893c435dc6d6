//! Normalizing one unit's reported windows.
//!
//! The raw windows are sorted into the canonical order and swept once:
//! overlapping windows of the same status are merged into one, and
//! overlapping windows of differing status are a conflict that aborts the
//! whole run.  Windows that merely touch are kept as separate entries,
//! even when they share a status.

use vstd::prelude::*;
use vstd::relations::{sorted_by, total_ordering};
use crate::error::DataError;
use crate::sorting::sort_windows;
use crate::window::{all_valid, window_le, TimeRange};

verus! {

/// Two windows overlap when they share at least one instant.
pub open spec fn overlaps(a: TimeRange, b: TimeRange) -> bool {
    a.from < b.to && b.from < a.to
}

/// Consecutive windows never overlap; touching is allowed.
pub open spec fn separated(ws: Seq<TimeRange>) -> bool {
    forall|k: int| 0 <= k < ws.len() - 1 ==> (#[trigger] ws[k]).to <= ws[k + 1].from
}

/// The accumulator extended by an overlapping same-status window.
pub open spec fn merged(acc: TimeRange, w: TimeRange) -> TimeRange {
    TimeRange {
        from: acc.from,
        to: if w.to > acc.to {
            w.to
        } else {
            acc.to
        },
        up: acc.up,
    }
}

/// The merge sweep over `ws[i..]`, with `acc` the window being grown and
/// `done` the windows already emitted.  `None` is a conflict: some window
/// overlapped the accumulator with the opposite status.
pub open spec fn combine_from(
    ws: Seq<TimeRange>,
    i: int,
    acc: TimeRange,
    done: Seq<TimeRange>,
) -> Option<Seq<TimeRange>>
    decreases ws.len() - i,
{
    if i < 0 || i >= ws.len() {
        Some(done.push(acc))
    } else {
        let w = ws[i];
        if w.from < acc.to {
            if w.up == acc.up {
                combine_from(ws, i + 1, merged(acc, w), done)
            } else {
                None
            }
        } else {
            combine_from(ws, i + 1, w, done.push(acc))
        }
    }
}

/// The merge sweep over a whole window list, which the caller hands over
/// already in canonical order.
pub open spec fn combine_sorted(ws: Seq<TimeRange>) -> Option<Seq<TimeRange>> {
    if ws.len() == 0 {
        Some(Seq::empty())
    } else {
        combine_from(ws, 1, ws[0], Seq::empty())
    }
}

/// The normalized timeline of a raw window list: sort, then merge.
/// `None` is a conflict.
pub open spec fn normalize_spec(raw: Seq<TimeRange>) -> Option<Seq<TimeRange>> {
    combine_sorted(raw.sort_by(window_le()))
}

/// Merges a window list that is already in canonical order, exactly as
/// [`combine_sorted`] states it.  An empty list yields an empty list; a
/// conflict aborts.
pub fn charger_times_combine(charger_times: &Vec<TimeRange>) -> (r: Result<
    Vec<TimeRange>,
    DataError,
>)
    ensures
        match r {
            Ok(out) => combine_sorted(charger_times@) == Some(out@),
            Err(e) => combine_sorted(charger_times@) is None && e == DataError::OverlappingWindows,
        },
{
    let mut condensed: Vec<TimeRange> = Vec::new();
    if charger_times.len() == 0 {
        assert(condensed@ =~= Seq::<TimeRange>::empty());
        return Ok(condensed);
    }
    let mut acc = charger_times[0];
    let mut i: usize = 1;
    while i < charger_times.len()
        invariant
            1 <= i <= charger_times@.len(),
            combine_from(charger_times@, i as int, acc, condensed@) == combine_sorted(
                charger_times@,
            ),
        decreases charger_times@.len() - i,
    {
        let w = charger_times[i];
        if w.from < acc.to {
            if w.up == acc.up {
                let ghost before = acc;
                if w.to > acc.to {
                    acc.to = w.to;
                }
                assert(acc == merged(before, w));
            } else {
                return Err(DataError::OverlappingWindows);
            }
        } else {
            condensed.push(acc);
            acc = w;
        }
        i = i + 1;
    }
    condensed.push(acc);
    Ok(condensed)
}

/// What the merge sweep emits, when it succeeds: well-formed windows in
/// canonical order, consecutive ones never overlapping.
proof fn lemma_combine_from_shape(ws: Seq<TimeRange>, i: int, acc: TimeRange, done: Seq<TimeRange>)
    requires
        sorted_by(ws, window_le()),
        all_valid(ws),
        acc.valid(),
        0 <= i,
        exists|r: int|
            0 <= r < i && r < ws.len() && acc.from == (#[trigger] ws[r]).from && (acc.from == acc.to
                ==> acc == ws[r]),
        all_valid(done),
        sorted_by(done, window_le()),
        separated(done),
        done.len() > 0 ==> done.last().to <= acc.from && window_le()(done.last(), acc),
    ensures
        combine_from(ws, i, acc, done) matches Some(out) ==> all_valid(out) && sorted_by(
            out,
            window_le(),
        ) && separated(out),
    decreases ws.len() - i,
{
    crate::window::lemma_window_le_total();
    let r = choose|r: int|
        0 <= r < i && r < ws.len() && acc.from == (#[trigger] ws[r]).from && (acc.from == acc.to
            ==> acc == ws[r]);
    if i >= ws.len() {
        let out = done.push(acc);
        assert(all_valid(out));
        assert forall|k1: int, k2: int| 0 <= k1 < k2 < out.len() implies #[trigger] window_le()(
            out[k1],
            out[k2],
        ) by {
            if k2 == out.len() - 1 {
                assert(window_le()(done[k1], done.last()) || k1 == done.len() - 1);
            }
        }
        assert(separated(out));
    } else {
        let w = ws[i];
        assert(window_le()(ws[r], ws[i]) || r == i);
        assert(w.from >= acc.from);
        if w.from < acc.to {
            if w.up == acc.up {
                let acc2 = merged(acc, w);
                assert(acc.from < acc.to);
                assert(acc2.valid());
                assert(acc2.from == ws[r].from && (acc2.from == acc2.to ==> acc2 == ws[r]));
                if done.len() > 0 {
                    assert(window_le()(done.last(), acc2));
                }
                lemma_combine_from_shape(ws, i + 1, acc2, done);
            }
        } else {
            let done2 = done.push(acc);
            assert forall|k1: int, k2: int| 0 <= k1 < k2 < done2.len() implies #[trigger] window_le()(
                done2[k1],
                done2[k2],
            ) by {
                if k2 == done2.len() - 1 {
                    assert(window_le()(done[k1], done.last()) || k1 == done.len() - 1);
                }
            }
            assert(window_le()(acc, w)) by {
                if acc.from == w.from {
                    assert(acc.to == acc.from);
                    assert(acc == ws[r]);
                    assert(window_le()(ws[r], ws[i]));
                }
            }
            assert(separated(done2));
            lemma_combine_from_shape(ws, i + 1, w, done2);
        }
    }
}

/// A successful merge of a sorted, well-formed window list yields a
/// well-formed, sorted, overlap-free list.
pub proof fn lemma_combine_sorted_shape(ws: Seq<TimeRange>)
    requires
        sorted_by(ws, window_le()),
        all_valid(ws),
    ensures
        combine_sorted(ws) matches Some(out) ==> all_valid(out) && sorted_by(out, window_le())
            && separated(out),
{
    if ws.len() > 0 {
        assert(ws[0].valid());
        lemma_combine_from_shape(ws, 1, ws[0], Seq::empty());
    }
}

/// The merge sweep leaves an overlap-free list unchanged.
proof fn lemma_combine_identity_from(t: Seq<TimeRange>, i: int)
    requires
        separated(t),
        1 <= i <= t.len(),
    ensures
        combine_from(t, i, t[i - 1], t.take(i - 1)) == Some(t),
    decreases t.len() - i,
{
    if i == t.len() {
        assert(t.take(i - 1).push(t[i - 1]) =~= t);
    } else {
        assert(t[i - 1].to <= t[i].from);
        lemma_combine_identity_from(t, i + 1);
        assert(t.take(i - 1).push(t[i - 1]) =~= t.take(i));
    }
}

/// Merging is the identity on lists whose consecutive windows do not
/// overlap; with [`lemma_combine_sorted_shape`] this is what makes
/// normalization idempotent.
pub proof fn lemma_combine_sorted_identity(t: Seq<TimeRange>)
    requires
        separated(t),
    ensures
        combine_sorted(t) == Some(t),
{
    if t.len() == 0 {
        assert(t =~= Seq::<TimeRange>::empty());
    } else {
        assert(t.take(0) =~= Seq::<TimeRange>::empty());
        lemma_combine_identity_from(t, 1);
    }
}

/// When the merge sweep succeeds, no two windows it saw — including the
/// region grown into the accumulator — overlap with differing status.
proof fn lemma_combine_from_no_conflict(
    ws: Seq<TimeRange>,
    i: int,
    acc: TimeRange,
    done: Seq<TimeRange>,
)
    requires
        sorted_by(ws, window_le()),
        0 <= i,
        forall|k: int| i <= k < ws.len() ==> (#[trigger] ws[k]).from >= acc.from,
        combine_from(ws, i, acc, done) is Some,
    ensures
        forall|p: int, q: int|
            i <= p < q < ws.len() && (#[trigger] ws[p]).up != (#[trigger] ws[q]).up ==> !overlaps(
                ws[p],
                ws[q],
            ),
        forall|q: int|
            i <= q < ws.len() && (#[trigger] ws[q]).up != acc.up ==> !(ws[q].from < acc.to
                && acc.from < ws[q].to),
    decreases ws.len() - i,
{
    crate::window::lemma_window_le_total();
    if i < ws.len() {
        let w = ws[i];
        if w.from < acc.to {
            assert(w.up == acc.up);
            let acc2 = merged(acc, w);
            lemma_combine_from_no_conflict(ws, i + 1, acc2, done);
            assert forall|p: int, q: int|
                i <= p < q < ws.len() && (#[trigger] ws[p]).up != (#[trigger] ws[q]).up implies !overlaps(
                ws[p],
                ws[q],
            ) by {
                if p == i && overlaps(ws[p], ws[q]) {
                    assert(ws[q].from < w.to <= acc2.to);
                    assert(acc2.from == acc.from <= w.from < ws[q].to);
                }
            }
            assert forall|q: int|
                i <= q < ws.len() && (#[trigger] ws[q]).up != acc.up implies !(ws[q].from < acc.to
                && acc.from < ws[q].to) by {
                if q > i && ws[q].from < acc.to && acc.from < ws[q].to {
                    assert(ws[q].from < acc2.to && acc2.from < ws[q].to);
                }
            }
        } else {
            assert forall|k: int| i + 1 <= k < ws.len() implies (#[trigger] ws[k]).from >= w.from by {
                assert(window_le()(ws[i], ws[k]));
            }
            lemma_combine_from_no_conflict(ws, i + 1, w, done.push(acc));
            assert forall|q: int|
                i <= q < ws.len() && (#[trigger] ws[q]).up != acc.up implies !(ws[q].from < acc.to
                && acc.from < ws[q].to) by {
                if q > i {
                    assert(window_le()(ws[i], ws[q]));
                    assert(ws[q].from >= w.from >= acc.to);
                }
            }
        }
    }
}

/// What a successful normalization hands back: well-formed windows in
/// canonical order, consecutive ones never overlapping.
pub proof fn lemma_normalize_valid(raw: Seq<TimeRange>, t: Seq<TimeRange>)
    requires
        all_valid(raw),
        normalize_spec(raw) == Some(t),
    ensures
        all_valid(t),
        sorted_by(t, window_le()),
        separated(t),
{
    crate::window::lemma_window_le_total();
    let s = raw.sort_by(window_le());
    raw.lemma_sort_by_ensures(window_le());
    crate::window::lemma_all_valid_permutation(raw, s);
    lemma_combine_sorted_shape(s);
}

/// Normalizing is idempotent: for any well-formed window list that
/// normalizes without conflict, normalizing the normalized list yields
/// that list again.
pub proof fn lemma_normalize_idempotent(raw: Seq<TimeRange>, t: Seq<TimeRange>)
    requires
        all_valid(raw),
        normalize_spec(raw) == Some(t),
    ensures
        normalize_spec(t) == Some(t),
{
    crate::window::lemma_window_le_total();
    lemma_normalize_valid(raw, t);
    t.lemma_sort_by_ensures(window_le());
    vstd::seq_lib::lemma_sorted_unique(t, t.sort_by(window_le()), window_le());
    assert(t.sort_by(window_le()) == t);
    lemma_combine_sorted_identity(t);
}

/// Two overlapping windows of one unit that disagree on reachability make
/// normalization fail, whatever else the list holds.
pub proof fn lemma_conflicting_windows_fail(raw: Seq<TimeRange>, i: int, j: int)
    requires
        0 <= i < raw.len(),
        0 <= j < raw.len(),
        raw[i].up != raw[j].up,
        overlaps(raw[i], raw[j]),
    ensures
        normalize_spec(raw) is None,
{
    crate::window::lemma_window_le_total();
    let s = raw.sort_by(window_le());
    raw.lemma_sort_by_ensures(window_le());
    let w1 = raw[i];
    let w2 = raw[j];
    assert(raw.contains(w1));
    assert(raw.contains(w2));
    assert(s.contains(w1) && s.contains(w2)) by {
        broadcast use vstd::seq_lib::group_to_multiset_ensures;

        assert(raw.to_multiset().count(w1) > 0);
        assert(raw.to_multiset().count(w2) > 0);
    }
    let p1 = choose|p: int| 0 <= p < s.len() && s[p] == w1;
    let p2 = choose|p: int| 0 <= p < s.len() && s[p] == w2;
    assert(p1 != p2);
    if normalize_spec(raw) is Some {
        assert(s.len() > 0);
        assert forall|k: int| 1 <= k < s.len() implies (#[trigger] s[k]).from >= s[0].from by {
            assert(window_le()(s[0], s[k]));
        }
        lemma_combine_from_no_conflict(s, 1, s[0], Seq::empty());
        let p = if p1 < p2 {
            p1
        } else {
            p2
        };
        let q = if p1 < p2 {
            p2
        } else {
            p1
        };
        assert(overlaps(s[p], s[q]) && s[p].up != s[q].up);
        if p >= 1 {
            assert(!overlaps(s[p], s[q]));
        } else {
            assert(!(s[q].from < s[0].to && s[0].from < s[q].to));
        }
        assert(false);
    }
}

/// Sorts a unit's raw windows and merges them: the whole normalizer,
/// exactly as [`normalize_spec`] states it.
pub fn normalize_timeline(raw: &Vec<TimeRange>) -> (r: Result<Vec<TimeRange>, DataError>)
    ensures
        match r {
            Ok(out) => normalize_spec(raw@) == Some(out@),
            Err(e) => normalize_spec(raw@) is None && e == DataError::OverlappingWindows,
        },
{
    let sorted = sort_windows(raw);
    charger_times_combine(&sorted)
}

} // verus!
