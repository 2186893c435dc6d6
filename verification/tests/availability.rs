//! End-to-end availability computation: normalization, aggregation,
//! quantization and the engine's station handling.

use charger_uptime::engine::compute_availability;
use charger_uptime::error::DataError;
use charger_uptime::maps::{ChargerUptimeMap, StationChargerMap};
use charger_uptime::normalize::{charger_times_combine, normalize_timeline};
use charger_uptime::quantize::quantize;
use charger_uptime::window::TimeRange;

fn window(from: u64, to: u64, up: bool) -> TimeRange {
    TimeRange { from, to, up }
}

fn station(sm: &mut StationChargerMap, sid: u32, chargers: &[u32]) {
    sm.add_station(sid, &chargers.to_vec());
}

#[test]
fn one_unit_fully_up() {
    let mut sm = StationChargerMap::new();
    let mut cm = ChargerUptimeMap::new();
    station(&mut sm, 1, &[10]);
    cm.add_report(10, window(0, 100, true));
    let out = compute_availability(&sm, &cm).unwrap();
    assert_eq!(out, vec![(1, 100)]);
}

#[test]
fn one_unit_half_up() {
    let mut sm = StationChargerMap::new();
    let mut cm = ChargerUptimeMap::new();
    station(&mut sm, 1, &[10]);
    cm.add_report(10, window(0, 50, true));
    cm.add_report(10, window(50, 100, false));
    let out = compute_availability(&sm, &cm).unwrap();
    assert_eq!(out, vec![(1, 50)]);
}

#[test]
fn two_units_union_semantics() {
    let mut sm = StationChargerMap::new();
    let mut cm = ChargerUptimeMap::new();
    station(&mut sm, 1, &[10, 11]);
    cm.add_report(10, window(0, 100, false));
    cm.add_report(11, window(0, 100, true));
    let out = compute_availability(&sm, &cm).unwrap();
    assert_eq!(out, vec![(1, 100)]);
}

#[test]
fn conflicting_overlap_aborts_run() {
    let mut sm = StationChargerMap::new();
    let mut cm = ChargerUptimeMap::new();
    station(&mut sm, 1, &[10]);
    station(&mut sm, 2, &[20]);
    cm.add_report(10, window(0, 100, true));
    cm.add_report(10, window(50, 150, false));
    cm.add_report(20, window(0, 10, true));
    let out = compute_availability(&sm, &cm);
    assert!(out.is_err());
    match out {
        Err(DataError::ConflictingReport { charger_id }) => assert_eq!(charger_id, 10),
        _ => panic!("expected a conflict"),
    }
}

#[test]
fn zero_length_window_station_omitted() {
    let mut sm = StationChargerMap::new();
    let mut cm = ChargerUptimeMap::new();
    station(&mut sm, 1, &[10]);
    cm.add_report(10, window(0, 0, true));
    let out = compute_availability(&sm, &cm).unwrap();
    assert_eq!(out, Vec::<(u32, u8)>::new());
}

#[test]
fn large_total_scaling_rule() {
    assert_eq!(quantize(15000, 20000), 75);
    let mut sm = StationChargerMap::new();
    let mut cm = ChargerUptimeMap::new();
    station(&mut sm, 1, &[10]);
    cm.add_report(10, window(0, 15000, true));
    cm.add_report(10, window(15000, 20000, false));
    let out = compute_availability(&sm, &cm).unwrap();
    assert_eq!(out, vec![(1, 75)]);
}

#[test]
fn small_total_multiplies_numerator() {
    assert_eq!(quantize(1, 3), 33);
    assert_eq!(quantize(2, 3), 66);
    assert_eq!(quantize(3, 3), 100);
    assert_eq!(quantize(0, 10000), 0);
    assert_eq!(quantize(10000, 10000), 100);
}

#[test]
fn quantize_monotonic_in_available() {
    let mut last = 0;
    for a in 0..=200u64 {
        let p = quantize(a, 200);
        assert!(p >= last);
        last = p;
    }
    assert_eq!(last, 100);
}

#[test]
fn station_with_no_reports_omitted() {
    let mut sm = StationChargerMap::new();
    let mut cm = ChargerUptimeMap::new();
    station(&mut sm, 1, &[10]);
    station(&mut sm, 2, &[20]);
    cm.add_report(20, window(0, 10, true));
    let out = compute_availability(&sm, &cm).unwrap();
    assert_eq!(out, vec![(2, 100)]);
}

#[test]
fn unknown_unit_reference_tolerated() {
    let mut sm = StationChargerMap::new();
    let mut cm = ChargerUptimeMap::new();
    station(&mut sm, 1, &[10, 99]);
    cm.add_report(10, window(0, 4, true));
    let out = compute_availability(&sm, &cm).unwrap();
    assert_eq!(out, vec![(1, 100)]);
}

#[test]
fn output_sorted_by_station_id() {
    let mut sm = StationChargerMap::new();
    let mut cm = ChargerUptimeMap::new();
    station(&mut sm, 5, &[50]);
    station(&mut sm, 2, &[20]);
    station(&mut sm, 9, &[90]);
    cm.add_report(50, window(0, 10, true));
    cm.add_report(20, window(0, 10, false));
    cm.add_report(90, window(0, 20, true));
    let out = compute_availability(&sm, &cm).unwrap();
    assert_eq!(out, vec![(2, 0), (5, 100), (9, 100)]);
}

#[test]
fn membership_is_idempotent() {
    let mut sm = StationChargerMap::new();
    let mut cm = ChargerUptimeMap::new();
    station(&mut sm, 1, &[10]);
    station(&mut sm, 1, &[10, 10]);
    cm.add_report(10, window(0, 10, true));
    let out = compute_availability(&sm, &cm).unwrap();
    assert_eq!(out, vec![(1, 100)]);
}

#[test]
fn gap_counts_against_availability() {
    let mut sm = StationChargerMap::new();
    let mut cm = ChargerUptimeMap::new();
    station(&mut sm, 1, &[10]);
    cm.add_report(10, window(0, 25, true));
    cm.add_report(10, window(75, 100, true));
    let out = compute_availability(&sm, &cm).unwrap();
    assert_eq!(out, vec![(1, 50)]);
}

#[test]
fn down_window_extends_observed_span() {
    let mut sm = StationChargerMap::new();
    let mut cm = ChargerUptimeMap::new();
    station(&mut sm, 1, &[10, 11]);
    cm.add_report(10, window(0, 50, true));
    cm.add_report(11, window(50, 200, false));
    let out = compute_availability(&sm, &cm).unwrap();
    assert_eq!(out, vec![(1, 25)]);
}

#[test]
fn combine_merges_same_status_overlap() {
    let windows = vec![window(0, 10, true), window(5, 20, true)];
    let combined = charger_times_combine(&windows).unwrap();
    assert_eq!(combined, vec![window(0, 20, true)]);
}

#[test]
fn combine_keeps_touching_windows_separate() {
    let windows = vec![window(0, 10, true), window(10, 20, true)];
    let combined = charger_times_combine(&windows).unwrap();
    assert_eq!(combined, vec![window(0, 10, true), window(10, 20, true)]);
}

#[test]
fn combine_empty_input_is_empty() {
    let windows: Vec<TimeRange> = Vec::new();
    let combined = charger_times_combine(&windows).unwrap();
    assert_eq!(combined, Vec::<TimeRange>::new());
}

#[test]
fn combine_conflict_is_reported() {
    let windows = vec![window(0, 10, true), window(5, 20, false)];
    let out = charger_times_combine(&windows);
    assert!(out.is_err());
    if let Err(e) = out {
        assert_eq!(
            e.message(),
            "Conflicting charger reports. Overlapping windows for the same charger."
        );
    }
}

#[test]
fn normalize_sorts_then_merges() {
    let windows = vec![window(30, 40, true), window(0, 10, true), window(5, 15, true)];
    let normalized = normalize_timeline(&windows).unwrap();
    assert_eq!(normalized, vec![window(0, 15, true), window(30, 40, true)]);
}

#[test]
fn normalize_is_idempotent_on_result() {
    let windows = vec![window(30, 40, false), window(0, 10, true), window(5, 15, true)];
    let once = normalize_timeline(&windows).unwrap();
    let twice = normalize_timeline(&once).unwrap();
    assert_eq!(once, twice);
}

#[test]
fn normalize_detects_unsorted_conflict() {
    let windows = vec![window(50, 150, false), window(0, 100, true)];
    let out = normalize_timeline(&windows);
    assert!(out.is_err());
}

#[test]
fn subsumed_up_window_adds_nothing() {
    let mut sm = StationChargerMap::new();
    let mut cm = ChargerUptimeMap::new();
    station(&mut sm, 1, &[10, 11]);
    cm.add_report(10, window(0, 100, true));
    cm.add_report(11, window(20, 80, true));
    let out = compute_availability(&sm, &cm).unwrap();
    assert_eq!(out, vec![(1, 100)]);
}
