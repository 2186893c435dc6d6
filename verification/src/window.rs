//! The window type: one reported reachability interval of one charging unit.

use vstd::prelude::*;
use vstd::relations::total_ordering;

verus! {

/// One availability report for a charging unit: during the half-open span
/// `[from, to)` the unit was reachable (`up == true`) or unreachable.
#[derive(Clone, Copy, Debug, PartialEq, Eq, Structural)]
pub struct TimeRange {
    pub from: u64,
    pub to: u64,
    pub up: bool,
}

impl TimeRange {
    /// A window is well-formed when it does not end before it starts.
    /// Ingestion rejects reports that violate this, so every window the
    /// computation sees satisfies it.
    pub open spec fn valid(self) -> bool {
        self.from <= self.to
    }

    /// The ordering every sort in this crate uses: ascending by start,
    /// ties broken ascending by end, a full positional tie broken with
    /// up-windows before down-windows.  Breaking all ties makes the sorted
    /// sequence of a window list unique, so results never depend on the
    /// order reports arrived in; putting the up-window first on a full tie
    /// is what lets the aggregation count it, so one reachable unit always
    /// suffices.
    pub open spec fn le_spec(self, other: TimeRange) -> bool {
        if self.from != other.from {
            self.from < other.from
        } else if self.to != other.to {
            self.to < other.to
        } else {
            self.up || !other.up
        }
    }

    /// Executable counterpart of [`TimeRange::le_spec`].
    pub fn le(&self, other: &TimeRange) -> (r: bool)
        ensures
            r == self.le_spec(*other),
    {
        if self.from != other.from {
            self.from < other.from
        } else if self.to != other.to {
            self.to < other.to
        } else {
            self.up || !other.up
        }
    }
}

/// [`TimeRange::le_spec`] as a first-class relation, for `Seq::sort_by`.
pub open spec fn window_le() -> spec_fn(TimeRange, TimeRange) -> bool {
    |a: TimeRange, b: TimeRange| a.le_spec(b)
}

/// All windows of a sequence are well-formed.
pub open spec fn all_valid(ws: Seq<TimeRange>) -> bool {
    forall|i: int| 0 <= i < ws.len() ==> (#[trigger] ws[i]).valid()
}

/// Well-formedness is a property of the windows alone, so any
/// rearrangement of a well-formed list is well-formed.
pub proof fn lemma_all_valid_permutation(a: Seq<TimeRange>, b: Seq<TimeRange>)
    requires
        a.to_multiset() == b.to_multiset(),
        all_valid(a),
    ensures
        all_valid(b),
{
    assert forall|k: int| 0 <= k < b.len() implies (#[trigger] b[k]).valid() by {
        broadcast use vstd::seq_lib::group_to_multiset_ensures;

        assert(b.contains(b[k]));
        assert(a.to_multiset().count(b[k]) > 0);
        assert(a.contains(b[k]));
        let j = choose|j: int| 0 <= j < a.len() && a[j] == b[k];
        assert(a[j].valid());
    }
}

/// The window ordering is total: reflexive, antisymmetric, transitive and
/// strongly connected.  This is what lets a sorted window list stand in
/// contracts as *the* sorted form of its contents.
pub proof fn lemma_window_le_total()
    ensures
        total_ordering(window_le()),
{
    assert forall|a: TimeRange, b: TimeRange| #[trigger] window_le()(a, b) && #[trigger] window_le()(
        b,
        a,
    ) implies a == b by {
        assert(a.from == b.from && a.to == b.to && a.up == b.up);
    }
}

} // verus!
