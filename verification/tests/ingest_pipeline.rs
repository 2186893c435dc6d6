//! Reading a whole export: section headers, blank lines, and the full
//! pipeline from lines to percentages.

use charger_uptime::engine::compute_availability;
use charger_uptime::error::DataError;
use charger_uptime::ingest::construct_maps;

fn as_lines(text: &str) -> Vec<Vec<u8>> {
    text.lines().map(|l| l.as_bytes().to_vec()).collect()
}

#[test]
fn full_export_computes_percentages() {
    let lines = as_lines(
        "[Stations]\n\
         0 1001 1002\n\
         1 1003\n\
         2 1004\n\
         \n\
         [Charger Availability Reports]\n\
         1001 0 50000 true\n\
         1001 50000 100000 true\n\
         1002 50000 100000 true\n\
         1003 25000 75000 false\n\
         1004 0 50000 true\n",
    );
    let (sm, cm) = construct_maps(&lines).unwrap();
    let out = compute_availability(&sm, &cm).unwrap();
    assert_eq!(out, vec![(0, 100), (1, 0), (2, 100)]);
}

#[test]
fn data_line_before_header_is_fatal() {
    let lines = as_lines("0 1001\n[Stations]\n");
    let out = construct_maps(&lines);
    assert!(out.is_err());
    if let Err(e) = out {
        assert!(matches!(e, DataError::UnexpectedDataLine));
        assert_eq!(e.message(), "Invalid file format. Unable to read file.");
    }
}

#[test]
fn blank_lines_and_padding_ignored() {
    let lines = as_lines("\n  [Stations]  \n\n 1 7 \n\n[Charger Availability Reports]\n\t7 0 10 true\n");
    let (sm, cm) = construct_maps(&lines).unwrap();
    let out = compute_availability(&sm, &cm).unwrap();
    assert_eq!(out, vec![(1, 100)]);
}

#[test]
fn bad_station_line_aborts_read() {
    let lines = as_lines("[Stations]\nxyz 1001\n");
    let out = construct_maps(&lines);
    assert!(out.is_err());
    if let Err(e) = out {
        assert_eq!(e.message(), "Invalid station ID: 'xyz'");
    }
}

#[test]
fn bad_report_line_aborts_read() {
    let lines = as_lines(
        "[Stations]\n1 1001\n[Charger Availability Reports]\n1001 20 10 true\n",
    );
    let out = construct_maps(&lines);
    assert!(out.is_err());
    if let Err(e) = out {
        assert!(matches!(e, DataError::InvalidWindow { charger_id: 1001 }));
    }
}

#[test]
fn conflict_in_export_names_charger() {
    let lines = as_lines(
        "[Stations]\n1 1001\n[Charger Availability Reports]\n1001 0 100 true\n1001 50 150 false\n",
    );
    let (sm, cm) = construct_maps(&lines).unwrap();
    let out = compute_availability(&sm, &cm);
    assert!(out.is_err());
    if let Err(e) = out {
        assert_eq!(
            e.message(),
            "Conflicting availability entries found for charger 1001"
        );
    }
}

#[test]
fn reports_for_unlisted_units_ignored() {
    let lines = as_lines(
        "[Stations]\n1 1001\n[Charger Availability Reports]\n1001 0 10 true\n9999 0 10 false\n",
    );
    let (sm, cm) = construct_maps(&lines).unwrap();
    let out = compute_availability(&sm, &cm).unwrap();
    assert_eq!(out, vec![(1, 100)]);
}
