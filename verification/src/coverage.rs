//! Merging the windows of all of a station's units into one coverage
//! measure.
//!
//! The windows of every contributing unit are flattened into one list,
//! sorted into the canonical order, and swept once from left to right.
//! Reachability is the union across units: one reachable unit makes the
//! station reachable at that instant.  The observed span runs from the
//! earliest to the latest reported instant, regardless of status, so gaps
//! with no reports count against availability.

use vstd::prelude::*;
use crate::window::{all_valid, TimeRange};

verus! {

pub open spec fn max_int(a: int, b: int) -> int {
    if a >= b {
        a
    } else {
        b
    }
}

/// One step of the sweep folded over `ws[i..]`.  `last_end` is the
/// furthest right edge seen so far (down-windows included), `covered` the
/// right edge of the reachable region counted so far, `avail` the
/// reachable time counted so far.  Returns the final `(avail, last_end)`.
///
/// A down-window only ever extends `last_end`.  An up-window ending inside
/// the counted region adds nothing; one starting inside it adds only its
/// uncounted part; one past the counted region adds its full length, and
/// the gap before it stays uncounted.
pub open spec fn sweep_from(
    ws: Seq<TimeRange>,
    i: int,
    last_end: int,
    covered: int,
    avail: int,
) -> (int, int)
    decreases ws.len() - i,
{
    if i < 0 || i >= ws.len() {
        (avail, last_end)
    } else {
        let w = ws[i];
        let stretched = max_int(last_end, w.to as int);
        if !w.up || covered >= w.to {
            sweep_from(ws, i + 1, stretched, covered, avail)
        } else if covered >= w.from {
            sweep_from(ws, i + 1, stretched, w.to as int, avail + (w.to - covered))
        } else {
            sweep_from(ws, i + 1, stretched, w.to as int, avail + (w.to - w.from))
        }
    }
}

/// The `(available, total)` measure of a nonempty window list in canonical
/// order: reachable time within the observed span, and the span itself.
pub open spec fn station_measure(ws: Seq<TimeRange>) -> (int, int)
    recommends
        ws.len() > 0,
{
    let w0 = ws[0];
    let first = if w0.up {
        w0.to - w0.from
    } else {
        0
    };
    let swept = sweep_from(ws, 1, w0.to as int, w0.to as int, first);
    (swept.0, swept.1 - w0.from)
}

/// The sweep keeps its accumulator within the observed span: counted
/// reachable time never exceeds the distance from `first_start` to the
/// counted edge, and only grows.
proof fn lemma_sweep_from_bounds(
    ws: Seq<TimeRange>,
    i: int,
    first_start: int,
    last_end: int,
    covered: int,
    avail: int,
)
    requires
        all_valid(ws),
        0 <= avail,
        first_start <= covered <= last_end,
        avail <= covered - first_start,
    ensures
        ({
            let r = sweep_from(ws, i, last_end, covered, avail);
            avail <= r.0 && r.0 <= r.1 - first_start && last_end <= r.1
        }),
    decreases ws.len() - i,
{
    if 0 <= i < ws.len() {
        let w = ws[i];
        let stretched = max_int(last_end, w.to as int);
        if !w.up || covered >= w.to {
            lemma_sweep_from_bounds(ws, i + 1, first_start, stretched, covered, avail);
        } else if covered >= w.from {
            lemma_sweep_from_bounds(
                ws,
                i + 1,
                first_start,
                stretched,
                w.to as int,
                avail + (w.to - covered),
            );
        } else {
            lemma_sweep_from_bounds(
                ws,
                i + 1,
                first_start,
                stretched,
                w.to as int,
                avail + (w.to - w.from),
            );
        }
    }
}

/// After aggregation, `0 <= available <= total` for every station.
pub proof fn lemma_measure_bounds(ws: Seq<TimeRange>)
    requires
        ws.len() > 0,
        all_valid(ws),
    ensures
        0 <= station_measure(ws).0 <= station_measure(ws).1,
{
    let w0 = ws[0];
    assert(w0.valid());
    let first = if w0.up {
        w0.to - w0.from
    } else {
        0
    };
    lemma_sweep_from_bounds(ws, 1, w0.from as int, w0.to as int, w0.to as int, first);
}

/// Computes the coverage measure of a nonempty window list, exactly as
/// [`station_measure`] states it.  The caller hands the list already in
/// canonical order; the measure itself is defined for any order, so this
/// is not a precondition, only how the engine uses it.
pub fn station_coverage(ws: &Vec<TimeRange>) -> (r: (u64, u64))
    requires
        ws@.len() > 0,
        all_valid(ws@),
    ensures
        r.0 == station_measure(ws@).0,
        r.1 == station_measure(ws@).1,
        r.0 <= r.1,
{
    proof {
        lemma_measure_bounds(ws@);
    }
    let w0 = ws[0];
    let first_start: u64 = w0.from;
    let mut last_end: u64 = w0.to;
    let mut covered: u64 = w0.to;
    let mut avail: u64 = if w0.up {
        w0.to - w0.from
    } else {
        0
    };
    let ghost goal = sweep_from(ws@, 1, w0.to as int, w0.to as int, avail as int);
    let mut i: usize = 1;
    while i < ws.len()
        invariant
            1 <= i <= ws@.len(),
            all_valid(ws@),
            first_start == ws@[0].from,
            first_start <= covered <= last_end,
            avail <= covered - first_start,
            sweep_from(ws@, i as int, last_end as int, covered as int, avail as int) == goal,
        decreases ws@.len() - i,
    {
        let w = ws[i];
        assert(w.valid());
        if w.to > last_end {
            last_end = w.to;
        }
        if w.up && covered < w.to {
            if covered >= w.from {
                avail = avail + (w.to - covered);
            } else {
                avail = avail + (w.to - w.from);
            }
            covered = w.to;
        }
        i = i + 1;
    }
    (avail, last_end - first_start)
}

} // verus!
