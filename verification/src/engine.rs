//! The engine: one pass over every declared station, in ascending id
//! order.
//!
//! For each station the member units' timelines are normalized, flattened
//! and aggregated, and the measure is quantized into a percentage.  The
//! first conflict anywhere aborts the whole run; stations without data
//! are omitted, never emitted as zero.

use vstd::prelude::*;
use crate::coverage::{station_coverage, station_measure};
use crate::error::DataError;
use crate::keymap::{has_key, key_index, key_lookup, lemma_key_index};
use crate::maps::{reports_all_valid, ChargerUptimeMap, StationChargerMap};
use crate::normalize::{lemma_normalize_valid, normalize_spec, normalize_timeline};
use crate::quantize::{lemma_quantize_bounds, quantize, quantize_spec};
use crate::sorting::{id_le, lemma_id_le_total, sort_ids, sort_windows};
use crate::window::{all_valid, lemma_all_valid_permutation, window_le, TimeRange};

verus! {

/// All declared station ids, in entry order.
pub open spec fn station_ids(m: Seq<(u32, Seq<u32>)>) -> Seq<u32> {
    m.map_values(|e: (u32, Seq<u32>)| e.0)
}

/// The station's member list, empty if it declared none.
pub open spec fn station_chargers(m: Seq<(u32, Seq<u32>)>, sid: u32) -> Seq<u32> {
    match key_lookup(m, sid) {
        Some(cs) => cs,
        None => Seq::empty(),
    }
}

/// The first member unit, in membership order, whose reports conflict.
pub open spec fn first_conflict(
    chargers: Seq<u32>,
    reports: Seq<(u32, Seq<TimeRange>)>,
) -> Option<u32>
    decreases chargers.len(),
{
    if chargers.len() == 0 {
        None
    } else {
        let conflicted = match key_lookup(reports, chargers[0]) {
            Some(raw) => normalize_spec(raw) is None,
            None => false,
        };
        if conflicted {
            Some(chargers[0])
        } else {
            first_conflict(chargers.drop_first(), reports)
        }
    }
}

/// A unit's normalized timeline; empty when it reported nothing.  Only
/// meaningful where no conflict exists.
pub open spec fn normalized_windows(reports: Seq<(u32, Seq<TimeRange>)>, c: u32) -> Seq<
    TimeRange,
> {
    match key_lookup(reports, c) {
        Some(raw) => match normalize_spec(raw) {
            Some(t) => t,
            None => Seq::empty(),
        },
        None => Seq::empty(),
    }
}

/// All member units' normalized windows, flattened in membership order.
/// A unit the reports never mention is simply absent, not an error.
pub open spec fn station_windows(
    chargers: Seq<u32>,
    reports: Seq<(u32, Seq<TimeRange>)>,
) -> Seq<TimeRange>
    decreases chargers.len(),
{
    if chargers.len() == 0 {
        Seq::empty()
    } else {
        normalized_windows(reports, chargers[0]) + station_windows(
            chargers.drop_first(),
            reports,
        )
    }
}

/// Whether a station contributes a line to the output: some member unit
/// reported something, and the observed span is longer than a single
/// instant.
pub open spec fn station_has_data(
    m: Seq<(u32, Seq<u32>)>,
    reports: Seq<(u32, Seq<TimeRange>)>,
    sid: u32,
) -> bool {
    let ws = station_windows(station_chargers(m, sid), reports);
    ws.len() > 0 && station_measure(ws.sort_by(window_le())).1 != 0
}

/// The percentage emitted for a station with data.
pub open spec fn station_percent(
    m: Seq<(u32, Seq<u32>)>,
    reports: Seq<(u32, Seq<TimeRange>)>,
    sid: u32,
) -> int {
    let ws = station_windows(station_chargers(m, sid), reports);
    let measure = station_measure(ws.sort_by(window_le()));
    quantize_spec(measure.0, measure.1)
}

/// The run over the stations in `ids`, in order: the first conflict
/// aborts everything, stations without data are omitted, the rest are
/// emitted with their percentage.
pub open spec fn engine_from(
    ids: Seq<u32>,
    m: Seq<(u32, Seq<u32>)>,
    reports: Seq<(u32, Seq<TimeRange>)>,
) -> Result<Seq<(u32, u8)>, DataError>
    decreases ids.len(),
{
    if ids.len() == 0 {
        Ok(Seq::empty())
    } else {
        let sid = ids[0];
        match first_conflict(station_chargers(m, sid), reports) {
            Some(c) => Err(DataError::ConflictingReport { charger_id: c }),
            None => match engine_from(ids.drop_first(), m, reports) {
                Err(e) => Err(e),
                Ok(rest) => if station_has_data(m, reports, sid) {
                    Ok(seq![(sid, station_percent(m, reports, sid) as u8)] + rest)
                } else {
                    Ok(rest)
                },
            },
        }
    }
}

/// The whole computation: every declared station, in ascending id order.
/// Walking the stations sorted by id is this crate's fixed, documented
/// iteration policy, so the output is deterministic whatever order the
/// input declared them in.
pub open spec fn engine_spec(
    m: Seq<(u32, Seq<u32>)>,
    reports: Seq<(u32, Seq<TimeRange>)>,
) -> Result<Seq<(u32, u8)>, DataError> {
    engine_from(station_ids(m).sort_by(id_le()), m, reports)
}

/// Unfolds one member unit of the station sweep along a suffix.
proof fn lemma_station_step(chargers: Seq<u32>, reports: Seq<(u32, Seq<TimeRange>)>, j: int)
    requires
        0 <= j < chargers.len(),
    ensures
        first_conflict(chargers.skip(j), reports) == ({
            let conflicted = match key_lookup(reports, chargers[j]) {
                Some(raw) => normalize_spec(raw) is None,
                None => false,
            };
            if conflicted {
                Some(chargers[j])
            } else {
                first_conflict(chargers.skip(j + 1), reports)
            }
        }),
        station_windows(chargers.skip(j), reports) == normalized_windows(reports, chargers[j])
            + station_windows(chargers.skip(j + 1), reports),
{
    assert(chargers.skip(j)[0] == chargers[j]);
    assert(chargers.skip(j).drop_first() =~= chargers.skip(j + 1));
}

/// Unfolds one station of the run along a suffix of the id list.
proof fn lemma_engine_step(
    ids: Seq<u32>,
    m: Seq<(u32, Seq<u32>)>,
    reports: Seq<(u32, Seq<TimeRange>)>,
    i: int,
)
    requires
        0 <= i < ids.len(),
    ensures
        engine_from(ids.skip(i), m, reports) == ({
            let sid = ids[i];
            match first_conflict(station_chargers(m, sid), reports) {
                Some(c) => Err(DataError::ConflictingReport { charger_id: c }),
                None => match engine_from(ids.skip(i + 1), m, reports) {
                    Err(e) => Err(e),
                    Ok(rest) => if station_has_data(m, reports, sid) {
                        Ok(seq![(sid, station_percent(m, reports, sid) as u8)] + rest)
                    } else {
                        Ok(rest)
                    },
                },
            }
        }),
{
    assert(ids.skip(i)[0] == ids[i]);
    assert(ids.skip(i).drop_first() =~= ids.skip(i + 1));
}

/// Every window a station's aggregation sees is well-formed, because
/// every stored report is and normalization keeps it so.
proof fn lemma_station_windows_valid(chargers: Seq<u32>, reports: Seq<(u32, Seq<TimeRange>)>)
    requires
        reports_all_valid(reports),
    ensures
        all_valid(station_windows(chargers, reports)),
    decreases chargers.len(),
{
    if chargers.len() > 0 {
        let c = chargers[0];
        let head = normalized_windows(reports, c);
        let rest = station_windows(chargers.drop_first(), reports);
        assert(all_valid(head)) by {
            match key_lookup(reports, c) {
                Some(raw) => {
                    lemma_key_index(reports, c);
                    assert(all_valid(raw));
                    match normalize_spec(raw) {
                        Some(t) => lemma_normalize_valid(raw, t),
                        None => {},
                    }
                },
                None => {},
            }
        }
        lemma_station_windows_valid(chargers.drop_first(), reports);
        assert forall|k: int| 0 <= k < (head + rest).len() implies (#[trigger] (head + rest)[k])
            .valid() by {
            if k < head.len() {
                assert((head + rest)[k] == head[k]);
            } else {
                assert((head + rest)[k] == rest[k - head.len()]);
            }
        }
    }
}

/// For every station with data, the emitted percentage lies in
/// `[0, 100]`, and with the aggregation bounds this is what keeps the
/// whole output within percentage range.
pub proof fn lemma_engine_percentages(
    ids: Seq<u32>,
    m: Seq<(u32, Seq<u32>)>,
    reports: Seq<(u32, Seq<TimeRange>)>,
)
    requires
        reports_all_valid(reports),
    ensures
        engine_from(ids, m, reports) matches Ok(out) ==> forall|k: int|
            0 <= k < out.len() ==> 0 <= (#[trigger] out[k]).1 <= 100,
    decreases ids.len(),
{
    if ids.len() > 0 && engine_from(ids, m, reports) is Ok {
        let sid = ids[0];
        lemma_engine_percentages(ids.drop_first(), m, reports);
        let out = engine_from(ids, m, reports)->Ok_0;
        let rest = engine_from(ids.drop_first(), m, reports)->Ok_0;
        if station_has_data(m, reports, sid) {
            let ws = station_windows(station_chargers(m, sid), reports);
            let sorted = ws.sort_by(window_le());
            lemma_station_windows_valid(station_chargers(m, sid), reports);
            crate::window::lemma_window_le_total();
            ws.lemma_sort_by_ensures(window_le());
            lemma_all_valid_permutation(ws, sorted);
            assert(sorted.len() == ws.len()) by {
                broadcast use vstd::seq_lib::group_to_multiset_ensures;

                assert(ws.to_multiset().len() == ws.len());
                assert(sorted.to_multiset().len() == sorted.len());
                assert(ws.to_multiset() =~= sorted.to_multiset());
            }
            crate::coverage::lemma_measure_bounds(sorted);
            let measure = station_measure(sorted);
            lemma_quantize_bounds(measure.0, measure.1);
            assert(0 <= station_percent(m, reports, sid) <= 100);
            assert(station_percent(m, reports, sid) as u8 <= 100);
            assert forall|k: int| 0 <= k < out.len() implies 0 <= (#[trigger] out[k]).1
                <= 100 by {
                if k > 0 {
                    assert(out[k] == rest[k - 1]);
                }
            }
        }
    }
}

/// A station with no reporting units, or whose observed span is empty,
/// is absent from the output — never emitted as zero — and every station
/// with data is present.
pub proof fn lemma_engine_station_presence(
    ids: Seq<u32>,
    m: Seq<(u32, Seq<u32>)>,
    reports: Seq<(u32, Seq<TimeRange>)>,
    out: Seq<(u32, u8)>,
)
    requires
        engine_from(ids, m, reports) == Ok::<Seq<(u32, u8)>, DataError>(out),
    ensures
        forall|k: int|
            0 <= k < out.len() ==> station_has_data(m, reports, (#[trigger] out[k]).0),
        forall|j: int|
            0 <= j < ids.len() && station_has_data(m, reports, #[trigger] ids[j])
                ==> exists|k: int| 0 <= k < out.len() && (#[trigger] out[k]).0 == ids[j],
    decreases ids.len(),
{
    if ids.len() > 0 {
        let sid = ids[0];
        match engine_from(ids.drop_first(), m, reports) {
            Ok(rest) => {
                lemma_engine_station_presence(ids.drop_first(), m, reports, rest);
                if station_has_data(m, reports, sid) {
                    assert(out == seq![(sid, station_percent(m, reports, sid) as u8)] + rest);
                    assert(out[0].0 == sid);
                    assert forall|k: int| 0 <= k < out.len() implies station_has_data(
                        m,
                        reports,
                        (#[trigger] out[k]).0,
                    ) by {
                        if k > 0 {
                            assert(out[k] == rest[k - 1]);
                        }
                    }
                    assert forall|j: int|
                        0 <= j < ids.len() && station_has_data(
                            m,
                            reports,
                            #[trigger] ids[j],
                        ) implies exists|k: int|
                        0 <= k < out.len() && (#[trigger] out[k]).0 == ids[j] by {
                        if j == 0 {
                            assert(out[0].0 == ids[0]);
                        } else {
                            assert(ids.drop_first()[j - 1] == ids[j]);
                            let k = choose|k: int|
                                0 <= k < rest.len() && (#[trigger] rest[k]).0 == ids[j];
                            assert(out[k + 1].0 == ids[j]);
                        }
                    }
                } else {
                    assert(out == rest);
                    assert forall|j: int|
                        0 <= j < ids.len() && station_has_data(
                            m,
                            reports,
                            #[trigger] ids[j],
                        ) implies exists|k: int|
                        0 <= k < out.len() && (#[trigger] out[k]).0 == ids[j] by {
                        if j > 0 {
                            assert(ids.drop_first()[j - 1] == ids[j]);
                        }
                    }
                }
            },
            Err(_) => {
                assert(false);
            },
        }
    }
}

/// With the stations walked in strictly ascending id order, the output
/// comes out in strictly ascending id order too: every emitted id is one
/// of the ids walked, each at most once.
pub proof fn lemma_engine_output_order(
    ids: Seq<u32>,
    m: Seq<(u32, Seq<u32>)>,
    reports: Seq<(u32, Seq<TimeRange>)>,
    out: Seq<(u32, u8)>,
)
    requires
        engine_from(ids, m, reports) == Ok::<Seq<(u32, u8)>, DataError>(out),
        vstd::relations::sorted_by(ids, id_le()),
        ids.no_duplicates(),
    ensures
        forall|k: int| 0 <= k < out.len() ==> ids.contains((#[trigger] out[k]).0),
        forall|k1: int, k2: int|
            0 <= k1 < k2 < out.len() ==> (#[trigger] out[k1]).0 < (#[trigger] out[k2]).0,
    decreases ids.len(),
{
    if ids.len() > 0 {
        let sid = ids[0];
        let t = ids.drop_first();
        match engine_from(t, m, reports) {
            Ok(rest) => {
                assert(vstd::relations::sorted_by(t, id_le())) by {
                    assert forall|a: int, b: int| 0 <= a < b < t.len() implies #[trigger] id_le()(
                        t[a],
                        t[b],
                    ) by {
                        assert(t[a] == ids[a + 1] && t[b] == ids[b + 1]);
                        assert(id_le()(ids[a + 1], ids[b + 1]));
                    }
                }
                assert(t.no_duplicates()) by {
                    assert forall|a: int, b: int|
                        0 <= a < t.len() && 0 <= b < t.len() && a != b implies #[trigger] t[a]
                        != #[trigger] t[b] by {
                        assert(t[a] == ids[a + 1] && t[b] == ids[b + 1]);
                    }
                }
                lemma_engine_output_order(t, m, reports, rest);
                if station_has_data(m, reports, sid) {
                    assert(out == seq![(sid, station_percent(m, reports, sid) as u8)] + rest);
                    assert forall|k: int| 0 <= k < out.len() implies ids.contains(
                        (#[trigger] out[k]).0,
                    ) by {
                        if k == 0 {
                            assert(out[0].0 == ids[0]);
                        } else {
                            assert(out[k] == rest[k - 1]);
                            assert(t.contains(rest[k - 1].0));
                            let j = choose|j: int| 0 <= j < t.len() && t[j] == rest[k - 1].0;
                            assert(ids[j + 1] == t[j]);
                        }
                    }
                    assert forall|k1: int, k2: int| 0 <= k1 < k2 < out.len() implies (
                    #[trigger] out[k1]).0 < (#[trigger] out[k2]).0 by {
                        if k1 == 0 {
                            assert(out[k2] == rest[k2 - 1]);
                            assert(t.contains(rest[k2 - 1].0));
                            let j = choose|j: int| 0 <= j < t.len() && t[j] == rest[k2 - 1].0;
                            assert(id_le()(ids[0], ids[j + 1]));
                            assert(ids[0] != ids[j + 1]);
                        } else {
                            assert(out[k1] == rest[k1 - 1] && out[k2] == rest[k2 - 1]);
                        }
                    }
                } else {
                    assert(out == rest);
                    assert forall|k: int| 0 <= k < out.len() implies ids.contains(
                        (#[trigger] out[k]).0,
                    ) by {
                        assert(t.contains(out[k].0));
                        let j = choose|j: int| 0 <= j < t.len() && t[j] == out[k].0;
                        assert(ids[j + 1] == t[j]);
                    }
                }
            },
            Err(_) => {
                assert(false);
            },
        }
    }
}

/// Runs the whole computation: for every declared station, in ascending
/// id order, the percentage of observed time with at least one reachable
/// unit.  Exactly [`engine_spec`]: the first conflicting unit anywhere
/// aborts the run, naming that unit; stations without data are omitted.
/// The output carries each station at most once, in ascending id order.
pub fn compute_availability(
    station_charger_map: &StationChargerMap,
    charger_uptime_map: &ChargerUptimeMap,
) -> (r: Result<Vec<(u32, u8)>, DataError>)
    requires
        station_charger_map.wf(),
        charger_uptime_map.wf(),
    ensures
        match r {
            Ok(out) => engine_spec(station_charger_map@, charger_uptime_map@)
                == Ok::<Seq<(u32, u8)>, DataError>(out@)
                && (forall|k: int| 0 <= k < out@.len() ==> (#[trigger] out@[k]).1 <= 100)
                && (forall|k1: int, k2: int|
                    0 <= k1 < k2 < out@.len() ==> (#[trigger] out@[k1]).0 < (#[trigger] out@[k2]).0),
            Err(e) => engine_spec(station_charger_map@, charger_uptime_map@)
                == Err::<Seq<(u32, u8)>, DataError>(e),
        },
{
    let ghost m = station_charger_map@;
    let ghost reports = charger_uptime_map@;
    let raw_ids = station_charger_map.ids();
    let ids = sort_ids(&raw_ids);
    let ghost idseq = ids@;
    proof {
        lemma_id_le_total();
        assert(idseq == station_ids(m).sort_by(id_le()));
        assert(idseq.skip(0) =~= idseq);
    }
    let mut out: Vec<(u32, u8)> = Vec::new();
    let mut i: usize = 0;
    while i < ids.len()
        invariant
            0 <= i <= idseq.len(),
            ids@ == idseq,
            m == station_charger_map@,
            reports == charger_uptime_map@,
            station_charger_map.wf(),
            charger_uptime_map.wf(),
            idseq == station_ids(m).sort_by(id_le()),
            match engine_from(idseq.skip(i as int), m, reports) {
                Ok(rest) => engine_from(idseq, m, reports)
                    == Ok::<Seq<(u32, u8)>, DataError>(out@ + rest),
                Err(e) => engine_from(idseq, m, reports)
                    == Err::<Seq<(u32, u8)>, DataError>(e),
            },
            forall|k: int| 0 <= k < out@.len() ==> (#[trigger] out@[k]).1 <= 100,
        decreases idseq.len() - i,
    {
        let sid = ids[i];
        proof {
            assert(idseq.contains(sid));
            station_ids(m).lemma_sort_by_ensures(id_le());
            assert(station_ids(m).contains(sid));
            let l = choose|l: int| 0 <= l < station_ids(m).len() && station_ids(m)[l] == sid;
            assert(m[l].0 == sid);
            assert(has_key(m, sid));
            lemma_key_index(m, sid);
        }
        if let Some(chargers) = station_charger_map.get(sid) {
            assert(chargers@ == station_chargers(m, sid));
            let ghost cs = chargers@;
            let mut ws: Vec<TimeRange> = Vec::new();
            proof {
                assert(cs.skip(0) =~= cs);
                assert(ws@ + station_windows(cs, reports) =~= station_windows(cs, reports));
            }
            let mut j: usize = 0;
            while j < chargers.len()
                invariant
                    0 <= j <= cs.len(),
                    chargers@ == cs,
                    reports == charger_uptime_map@,
                    charger_uptime_map.wf(),
                    0 <= i < idseq.len(),
                    sid == idseq[i as int],
                    m == station_charger_map@,
                    idseq == station_ids(m).sort_by(id_le()),
                    cs == station_chargers(m, sid),
                    match engine_from(idseq.skip(i as int), m, reports) {
                        Ok(rest) => engine_from(idseq, m, reports)
                            == Ok::<Seq<(u32, u8)>, DataError>(out@ + rest),
                        Err(e) => engine_from(idseq, m, reports)
                            == Err::<Seq<(u32, u8)>, DataError>(e),
                    },
                    first_conflict(cs, reports) == first_conflict(cs.skip(j as int), reports),
                    ws@ + station_windows(cs.skip(j as int), reports) == station_windows(
                        cs,
                        reports,
                    ),
                    all_valid(ws@),
                decreases cs.len() - j,
            {
                let c = chargers[j];
                proof {
                    lemma_station_step(cs, reports, j as int);
                }
                match charger_uptime_map.get(c) {
                    None => {
                        proof {
                            assert(normalized_windows(reports, c) =~= Seq::<TimeRange>::empty());
                            assert(ws@ + station_windows(cs.skip(j + 1), reports)
                                =~= ws@ + (normalized_windows(reports, c) + station_windows(
                                cs.skip(j + 1),
                                reports,
                            )));
                        }
                    },
                    Some(raw) => {
                        proof {
                            lemma_key_index(reports, c);
                            assert(all_valid(raw@));
                        }
                        match normalize_timeline(raw) {
                            Err(_) => {
                                proof {
                                    assert(first_conflict(cs.skip(j as int), reports) == Some(c));
                                    lemma_engine_step(idseq, m, reports, i as int);
                                    assert(engine_from(idseq, m, reports)
                                        == Err::<Seq<(u32, u8)>, DataError>(
                                        DataError::ConflictingReport { charger_id: c },
                                    ));
                                }
                                return Err(DataError::ConflictingReport { charger_id: c });
                            },
                            Ok(mut nt) => {
                                proof {
                                    assert(normalized_windows(reports, c) == nt@);
                                    lemma_normalize_valid(raw@, nt@);
                                    assert((ws@ + nt@) + station_windows(cs.skip(j + 1), reports)
                                        =~= ws@ + (nt@ + station_windows(
                                        cs.skip(j + 1),
                                        reports,
                                    )));
                                    assert forall|k: int|
                                        0 <= k < (ws@ + nt@).len() implies (#[trigger] (ws@
                                        + nt@)[k]).valid() by {
                                        if k < ws@.len() {
                                            assert((ws@ + nt@)[k] == ws@[k]);
                                        } else {
                                            assert((ws@ + nt@)[k] == nt@[k - ws@.len()]);
                                        }
                                    }
                                }
                                ws.append(&mut nt);
                            },
                        }
                    },
                }
                j = j + 1;
            }
            proof {
                assert(cs.skip(cs.len() as int) =~= Seq::<u32>::empty());
                assert(first_conflict(cs, reports) is None);
                assert(ws@ + Seq::<TimeRange>::empty() =~= ws@);
                assert(station_windows(cs, reports) == ws@);
                lemma_engine_step(idseq, m, reports, i as int);
            }
            let ghost out_before = out@;
            if ws.len() > 0 {
                let sorted_ws = sort_windows(&ws);
                proof {
                    crate::window::lemma_window_le_total();
                    lemma_all_valid_permutation(ws@, sorted_ws@);
                }
                let measure = station_coverage(&sorted_ws);
                if measure.1 > 0 {
                    let pct = quantize(measure.0, measure.1);
                    proof {
                        assert(station_has_data(m, reports, sid));
                        assert(pct == station_percent(m, reports, sid));
                        assert(station_percent(m, reports, sid) as u8 == pct);
                    }
                    out.push((sid, pct));
                    proof {
                        match engine_from(idseq.skip(i + 1), m, reports) {
                            Ok(rest) => {
                                assert(out_before + (seq![(sid, pct)] + rest) =~= out@ + rest);
                            },
                            Err(_) => {},
                        }
                    }
                } else {
                    proof {
                        assert(!station_has_data(m, reports, sid));
                    }
                }
            } else {
                proof {
                    assert(!station_has_data(m, reports, sid));
                }
            }
        } else {
            proof {
                assert(false);
            }
        }
        i = i + 1;
    }
    proof {
        assert(idseq.skip(idseq.len() as int) =~= Seq::<u32>::empty());
        assert(out@ + Seq::<(u32, u8)>::empty() =~= out@);
        station_ids(m).lemma_sort_by_ensures(id_le());
        assert(station_ids(m).no_duplicates()) by {
            assert forall|a: int, b: int|
                0 <= a < station_ids(m).len() && 0 <= b < station_ids(m).len() && a
                != b implies #[trigger] station_ids(m)[a] != #[trigger] station_ids(m)[b] by {
                assert(station_ids(m)[a] == m[a].0 && station_ids(m)[b] == m[b].0);
            }
        }
        station_ids(m).lemma_multiset_has_no_duplicates();
        idseq.lemma_multiset_has_no_duplicates_conv();
        lemma_engine_output_order(idseq, m, reports, out@);
    }
    Ok(out)
}

} // verus!
